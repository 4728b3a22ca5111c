use vstd::prelude::*;
use crate::error::Error;

verus! {

/// The key of the process caches: a package URL and the platform that it
/// was loaded for.
#[derive(Debug, Clone)]
pub struct Source {
    pub url: String,
    pub platform: String,
}

impl View for Source {
    type V = (Seq<char>, Seq<char>);

    open spec fn view(&self) -> (Seq<char>, Seq<char>) {
        (self.url@, self.platform@)
    }
}

impl Source {
    pub fn new(url: &str, platform: &str) -> (r: Source)
        ensures
            r@ == (url@, platform@),
    {
        Source { url: url.to_owned(), platform: platform.to_owned() }
    }

    /// Whether two sources name the same URL and platform.
    pub fn same(&self, other: &Source) -> (r: bool)
        ensures
            r == (self@ == other@),
    {
        self.url == other.url && self.platform == other.platform
    }
}

/// The sources that a list of entries holds, in order.
pub open spec fn entry_keys<L>(es: Seq<(Source, L)>) -> Seq<(Seq<char>, Seq<char>)> {
    es.map_values(|e: (Source, L)| e.0@)
}

/// One loaded library per source.
pub struct SingleCache<L> {
    entries: Vec<(Source, L)>,
}

impl<L> SingleCache<L> {
    /// The sources that have a library, each once.
    pub closed spec fn keys(&self) -> Seq<(Seq<char>, Seq<char>)> {
        entry_keys(self.entries@)
    }

    pub closed spec fn wf(&self) -> bool {
        self.keys().no_duplicates()
    }

    pub open spec fn holds(&self, s: (Seq<char>, Seq<char>)) -> bool {
        self.keys().contains(s)
    }

    pub fn new() -> (r: Self)
        ensures
            r.wf(),
            r.keys() == Seq::<(Seq<char>, Seq<char>)>::empty(),
    {
        let r = SingleCache { entries: Vec::new() };
        assert(r.keys() =~= Seq::<(Seq<char>, Seq<char>)>::empty());
        r
    }

    fn position(&self, s: &Source) -> (r: Option<usize>)
        ensures
            r matches Some(i) ==> i < self.keys().len() && self.keys()[i as int] == s@,
            r is None ==> !self.holds(s@),
    {
        let mut i: usize = 0;
        while i < self.entries.len()
            invariant
                i <= self.entries@.len(),
                forall|k: int| 0 <= k < i ==> #[trigger] self.keys()[k] != s@,
            decreases self.entries.len() - i,
        {
            if self.entries[i].0.same(s) {
                return Some(i);
            }
            i = i + 1;
        }
        None
    }

    /// Whether a library is cached for `s`: when it is, the loader is not
    /// called for `s`.
    pub fn contains(&self, s: &Source) -> (r: bool)
        ensures
            r == self.holds(s@),
    {
        self.position(s).is_some()
    }

    /// Takes the library cached for `s` out of the cache, for the caller to
    /// use and put back with `insert`.
    pub fn take(&mut self, s: &Source) -> (r: Option<L>)
        requires
            old(self).wf(),
        ensures
            final(self).wf(),
            r is Some <==> old(self).holds(s@),
            r is Some ==> final(self).keys() == old(self).keys().remove(old(self).keys().index_of(s@)),
            r is None ==> final(self).keys() == old(self).keys(),
            !final(self).holds(s@),
            forall|k: (Seq<char>, Seq<char>)| #[trigger] final(self).holds(k) <==> old(self).holds(k) && k != s@,
    {
        match self.position(s) {
            Some(i) => {
                let ghost before = self.keys();
                let e = self.entries.remove(i);
                proof {
                    assert(self.keys() =~= before.remove(i as int));
                    before.index_of_first(s@);
                    assert(before.index_of(s@) == i as int) by {
                        let j = before.index_of(s@);
                        assert(before[j] == s@);
                        if j != i {
                            assert(before[j] == before[i as int]);
                        }
                    }
                    assert forall|a: int, b: int|
                        0 <= a < b < self.keys().len() implies self.keys()[a] != self.keys()[b] by {
                        let a0 = if a < i { a } else { a + 1 };
                        let b0 = if b < i { b } else { b + 1 };
                        assert(self.keys()[a] == before[a0] && self.keys()[b] == before[b0]);
                    }
                    if self.keys().contains(s@) {
                        let j = self.keys().index_of(s@);
                        let j0 = if j < i { j } else { j + 1 };
                        assert(before[j0] == before[i as int]);
                    }
                    assert forall|k: (Seq<char>, Seq<char>)| #[trigger] self.holds(k) <==> before.contains(k) && k != s@ by {
                        if self.keys().contains(k) {
                            let j = self.keys().index_of(k);
                            let j0 = if j < i { j } else { j + 1 };
                            assert(before[j0] == k);
                        }
                        if before.contains(k) && k != s@ {
                            let j = before.index_of(k);
                            assert(j != i);
                            let j1 = if j < i { j } else { j - 1 };
                            assert(self.keys()[j1] == k);
                        }
                    }
                }
                Some(e.1)
            },
            None => None,
        }
    }

    /// Caches `lib` for `s`, replacing a library cached for it before.
    pub fn insert(&mut self, s: Source, lib: L)
        requires
            old(self).wf(),
        ensures
            final(self).wf(),
            final(self).holds(s@),
            forall|k: (Seq<char>, Seq<char>)| old(self).holds(k) ==> #[trigger] final(self).holds(k),
            forall|k: (Seq<char>, Seq<char>)| #[trigger] final(self).holds(k) ==> old(self).holds(k) || k == s@,
            served(*old(self), *final(self), s@),
    {
        let ghost before = self.keys();
        let ghost key = s@;
        let _ = self.take(&s);
        let ghost mid = self.keys();
        self.entries.push((s, lib));
        proof {
            assert(self.keys() =~= mid.push(key));
            assert(self.keys()[mid.len() as int] == key);
            assert forall|a: int, b: int|
                0 <= a < b < self.keys().len() implies self.keys()[a] != self.keys()[b] by {
                if b == mid.len() {
                    assert(self.keys()[a] == mid[a]);
                    assert(mid.contains(mid[a]));
                } else {
                    assert(self.keys()[a] == mid[a] && self.keys()[b] == mid[b]);
                }
            }
            assert forall|k: (Seq<char>, Seq<char>)| old(self).holds(k) implies #[trigger] self.holds(k) by {
                if k != key {
                    let j = before.index_of(k);
                    if before.contains(key) {
                        let x = before.index_of(key);
                        let j0 = if j < x { j } else { j - 1 };
                        assert(mid[j0] == k);
                    } else {
                        assert(mid[j] == k);
                    }
                    assert(self.keys()[j0_of(j, before, key)] == k) by {
                        if before.contains(key) {
                            let x = before.index_of(key);
                            let j0 = if j < x { j } else { j - 1 };
                            assert(j0 == j0_of(j, before, key));
                            assert(self.keys()[j0] == mid[j0]);
                        } else {
                            assert(self.keys()[j] == mid[j]);
                        }
                    }
                }
            }
            assert forall|k: (Seq<char>, Seq<char>)| #[trigger] self.holds(k) implies before.contains(k) || k == key by {
                let j = self.keys().index_of(k);
                if j < mid.len() {
                    assert(mid[j] == k);
                    if before.contains(key) {
                        let x = before.index_of(key);
                        let j0 = if j < x { j } else { j + 1 };
                        assert(before[j0] == k);
                    } else {
                        assert(before[j] == k);
                    }
                }
            }
        }
    }
}

/// Position in `before` of the element at `j`, once `key` is removed.
spec fn j0_of(j: int, before: Seq<(Seq<char>, Seq<char>)>, key: (Seq<char>, Seq<char>)) -> int {
    if before.contains(key) {
        if j < before.index_of(key) { j } else { j - 1 }
    } else {
        j
    }
}

/// `after` holds what `before` held and `s`, nothing else: the state after
/// a request for `s`, whether it found the library (`take`, then `insert`)
/// or loaded it (`insert`).
pub open spec fn served<L>(before: SingleCache<L>, after: SingleCache<L>, s: (Seq<char>, Seq<char>)) -> bool {
    forall|k: (Seq<char>, Seq<char>)| #[trigger] after.holds(k) <==> before.holds(k) || k == s
}

/// Taking the library of `s` out and inserting it back serves `s`.
pub proof fn lemma_take_then_insert<L>(
    a: SingleCache<L>,
    b: SingleCache<L>,
    c: SingleCache<L>,
    s: (Seq<char>, Seq<char>),
)
    requires
        forall|k: (Seq<char>, Seq<char>)| #[trigger] b.holds(k) <==> a.holds(k) && k != s,
        served(b, c, s),
    ensures
        served(a, c, s),
{
    assert forall|k: (Seq<char>, Seq<char>)| #[trigger] c.holds(k) <==> a.holds(k) || k == s by {
        assert(c.holds(k) <==> b.holds(k) || k == s);
    }
}

proof fn lemma_holds_served_prefix<L>(
    states: Seq<SingleCache<L>>,
    ss: Seq<(Seq<char>, Seq<char>)>,
    i: int,
)
    requires
        states.len() == ss.len() + 1,
        forall|k: (Seq<char>, Seq<char>)| !(#[trigger] states[0].holds(k)),
        forall|j: int| 0 <= j < ss.len() ==> served(#[trigger] states[j], states[j + 1], ss[j]),
        0 <= i <= ss.len(),
    ensures
        forall|k: (Seq<char>, Seq<char>)| #[trigger] states[i].holds(k) <==> ss.subrange(0, i).contains(k),
    decreases i,
{
    if i > 0 {
        lemma_holds_served_prefix(states, ss, i - 1);
        let pre = ss.subrange(0, i - 1);
        let cur = ss.subrange(0, i);
        assert(cur =~= pre.push(ss[i - 1]));
        assert(served(states[i - 1], states[i], ss[i - 1]));
        assert forall|k: (Seq<char>, Seq<char>)| #[trigger] states[i].holds(k) <==> cur.contains(k) by {
            assert(states[i].holds(k) <==> states[i - 1].holds(k) || k == ss[i - 1]);
            if pre.contains(k) {
                let j = choose|j: int| 0 <= j < pre.len() && pre[j] == k;
                assert(cur[j] == k);
            }
            if k == ss[i - 1] {
                assert(cur[i - 1] == k);
            }
            if cur.contains(k) {
                let j = choose|j: int| 0 <= j < cur.len() && cur[j] == k;
                if j < i - 1 {
                    assert(pre[j] == k);
                }
            }
        }
    } else {
        assert(ss.subrange(0, 0) =~= Seq::<(Seq<char>, Seq<char>)>::empty());
    }
}

/// A cache that starts empty and serves the requests `ss` in turn misses,
/// and so loads, exactly on the first request for each source: the library
/// of a source is loaded at most once, and once if it is asked for.
pub proof fn lemma_cache_loads_once<L>(
    states: Seq<SingleCache<L>>,
    ss: Seq<(Seq<char>, Seq<char>)>,
    s: (Seq<char>, Seq<char>),
)
    requires
        states.len() == ss.len() + 1,
        forall|k: (Seq<char>, Seq<char>)| !(#[trigger] states[0].holds(k)),
        forall|j: int| 0 <= j < ss.len() ==> served(#[trigger] states[j], states[j + 1], ss[j]),
    ensures
        forall|i: int| 0 <= i < ss.len() ==> (!(#[trigger] states[i]).holds(ss[i]) <==> loads_at(ss, i)),
        loads_for(ss, s) <= 1,
        loads_for(ss, s) == 1 <==> ss.contains(s),
{
    assert forall|i: int| 0 <= i < ss.len() implies (!(#[trigger] states[i]).holds(ss[i]) <==> loads_at(ss, i)) by {
        lemma_holds_served_prefix(states, ss, i);
    }
    lemma_loaded_at_most_once(ss, s);
}

/// The request at position `i` of `ss` is the first for its source.
pub open spec fn loads_at(ss: Seq<(Seq<char>, Seq<char>)>, i: int) -> bool {
    !ss.subrange(0, i).contains(ss[i])
}

/// How many of the requests `ss` are the first for source `s`.
pub open spec fn loads_for(ss: Seq<(Seq<char>, Seq<char>)>, s: (Seq<char>, Seq<char>)) -> nat
    decreases ss.len(),
{
    if ss.len() == 0 {
        0
    } else {
        loads_for(ss.drop_last(), s) + if ss.last() == s && loads_at(ss, ss.len() - 1) {
            1nat
        } else {
            0nat
        }
    }
}

/// Each source has at most one first request in `ss`, and one exactly when
/// some request names it.
pub proof fn lemma_loaded_at_most_once(ss: Seq<(Seq<char>, Seq<char>)>, s: (Seq<char>, Seq<char>))
    ensures
        loads_for(ss, s) <= 1,
        loads_for(ss, s) == 1 <==> ss.contains(s),
    decreases ss.len(),
{
    if ss.len() > 0 {
        let pre = ss.drop_last();
        lemma_loaded_at_most_once(pre, s);
        assert(ss.subrange(0, ss.len() - 1) =~= pre);
        if ss.contains(s) && !pre.contains(s) {
            let k = choose|k: int| 0 <= k < ss.len() && ss[k] == s;
            if k < ss.len() - 1 {
                assert(pre[k] == s);
            }
        }
        if pre.contains(s) {
            let k = choose|k: int| 0 <= k < pre.len() && pre[k] == s;
            assert(ss[k] == s);
        }
    }
}

/// The state of a pool: its idle handles, the most recently returned last,
/// and how many are lent out.
pub struct PoolModel<L> {
    pub idle: Seq<L>,
    pub in_use: nat,
}

/// The pool after a caller borrows a handle: the most recently returned idle
/// one when there is one, else one the caller created.
pub open spec fn borrowed<L>(p: PoolModel<L>) -> PoolModel<L> {
    PoolModel {
        idle: if p.idle.len() > 0 {
            p.idle.drop_last()
        } else {
            p.idle
        },
        in_use: p.in_use + 1,
    }
}

/// The pool after a caller hands `lib` back.
pub open spec fn returned<L>(p: PoolModel<L>, lib: L) -> PoolModel<L> {
    PoolModel { idle: p.idle.push(lib), in_use: (p.in_use - 1) as nat }
}

/// Libraries of one source for concurrent callers: each caller borrows a
/// handle of its own, taken from the idle ones or newly created.
pub struct ResourcePool<L> {
    available: Vec<L>,
    in_use_count: usize,
}

impl<L> View for ResourcePool<L> {
    type V = PoolModel<L>;

    closed spec fn view(&self) -> PoolModel<L> {
        PoolModel { idle: self.available@, in_use: self.in_use_count as nat }
    }
}

impl<L> ResourcePool<L> {
    pub fn new() -> (r: Self)
        ensures
            r@.idle == Seq::<L>::empty(),
            r@.in_use == 0,
    {
        ResourcePool { available: Vec::new(), in_use_count: 0 }
    }

    /// Number of handles lent out.
    pub fn in_use_count(&self) -> (r: usize)
        ensures
            r == self@.in_use,
    {
        self.in_use_count
    }

    /// Number of idle handles.
    pub fn idle_count(&self) -> (r: usize)
        ensures
            r == self@.idle.len(),
    {
        self.available.len()
    }

    /// Lends out a handle: the most recently returned idle one, which leaves
    /// the pool so that no other caller gets it, or else one that `create`
    /// makes. Nothing changes when `create` fails.
    pub fn get_or_create_resource<C>(&mut self, create: &C) -> (r: Result<L, Error>) where
        C: Fn() -> Result<L, Error>,

        requires
            old(self)@.in_use < usize::MAX,
            create.requires(()),
        ensures
            r is Ok ==> final(self)@ == borrowed(old(self)@),
            r matches Ok(lib) ==> (old(self)@.idle.len() > 0 && lib == old(self)@.idle.last()) || (
            old(self)@.idle.len() == 0 && create.ensures((), Ok::<L, Error>(lib))),
            r matches Err(e) ==> old(self)@.idle.len() == 0 && create.ensures((), Err::<L, Error>(e))
                && final(self)@ == old(self)@,
    {
        match self.available.pop() {
            Some(lib) => {
                self.in_use_count = self.in_use_count + 1;
                Ok(lib)
            },
            None => {
                let lib = create()?;
                self.in_use_count = self.in_use_count + 1;
                Ok(lib)
            },
        }
    }

    /// Takes back a handle that was lent out, for the next caller.
    pub fn return_resource(&mut self, lib: L)
        requires
            old(self)@.in_use > 0,
        ensures
            final(self)@ == returned(old(self)@, lib),
    {
        self.available.push(lib);
        self.in_use_count = self.in_use_count - 1;
    }
}

/// Borrowing the idle handle on top of the pool and handing it back leaves
/// the pool as it was; while it is out, it is not among the idle handles
/// that other callers can get.
pub proof fn lemma_borrow_then_return<L>(p: PoolModel<L>)
    requires
        p.idle.len() > 0,
    ensures
        returned(borrowed(p), p.idle.last()) == p,
        borrowed(p).idle.len() + 1 == p.idle.len(),
        borrowed(p).in_use == p.in_use + 1,
{
    assert(p.idle.drop_last().push(p.idle.last()) =~= p.idle);
}

/// When no handle is idle, a handle that a caller creates is idle once it
/// is handed back, and the number lent out is as before.
pub proof fn lemma_created_then_returned<L>(p: PoolModel<L>, lib: L)
    requires
        p.idle.len() == 0,
    ensures
        returned(borrowed(p), lib).in_use == p.in_use,
        returned(borrowed(p), lib).idle == seq![lib],
{
    assert(p.idle.push(lib) =~= seq![lib]);
}

} // verus!
