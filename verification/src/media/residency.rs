//! Which decoded rasters the terminal is still holding, and how many bytes of
//! them — residency, and residency only: whether an image is drawn is the
//! sink's business, not this cache's.
//!
//! The budget is in bytes, the order is least-recently-used first, and
//! eviction never takes a pinned node — one with a live placement this frame —
//! nor the node being inserted: when every resident is pinned the cache goes
//! over budget rather than blank a box the reader is looking at.
//!
//! A node is named by its integer id and an image by the terminal's image
//! number; the residents live in one vector in LRU order, in which no node
//! occurs twice.

use vstd::prelude::*;

verus! {

/// One transmitted raster the terminal is holding.
#[derive(Debug, Clone, Copy, PartialEq, Eq)]
pub struct Resident {
    /// The terminal's number for this raster.
    pub id: u32,
    /// The `(width, height)` in pixels the raster was rendered for; a repaint
    /// at another target is a miss.
    pub rendered_px: (u32, u32),
    /// The raster's actual `(width, height)` in pixels.
    pub raster_px: (u32, u32),
    /// The transmitted image's byte length: what the budget is spent in.
    pub bytes: u64,
}

impl Resident {
    /// A record of a raster transmitted as image `id`.
    pub fn new(id: u32, rendered_px: (u32, u32), raster_px: (u32, u32), bytes: u64) -> (r: Resident)
        ensures
            r == (Resident { id, rendered_px, raster_px, bytes }),
    {
        Resident { id, rendered_px, raster_px, bytes }
    }
}

/// A node and the raster resident for it.
pub type Slot = (u64, Resident);

/// The bytes held by the residents in `s`.
pub open spec fn total(s: Seq<Slot>) -> nat
    decreases s.len(),
{
    if s.len() == 0 {
        0
    } else {
        total(s.drop_last()) + s.last().1.bytes as nat
    }
}

/// Whether no node occurs twice in `s`.
pub open spec fn nodes_distinct(s: Seq<Slot>) -> bool {
    forall|i: int, j: int| 0 <= i < j < s.len() ==> s[i].0 != s[j].0
}

/// Where `node` sits in `s`, among its first `n` slots.
pub open spec fn position(s: Seq<Slot>, node: u64, n: int) -> Option<int>
    decreases n,
{
    if n <= 0 {
        None
    } else {
        match position(s, node, n - 1) {
            Some(k) => Some(k),
            None => if s[n - 1].0 == node { Some(n - 1) } else { None },
        }
    }
}

/// Where `node` sits in `s`.
pub open spec fn find(s: Seq<Slot>, node: u64) -> Option<int> {
    position(s, node, s.len() as int)
}

/// Whether eviction must leave `x` alone: it is the node being inserted, or
/// it has a live placement.
pub open spec fn exempt(x: Slot, node: u64, pinned: Seq<u64>) -> bool {
    x.0 == node || pinned.contains(x.0)
}

/// The first slot among the first `n` of `s` eviction may take.
pub open spec fn first_victim(s: Seq<Slot>, node: u64, pinned: Seq<u64>, n: int) -> Option<int>
    decreases n,
{
    if n <= 0 {
        None
    } else {
        match first_victim(s, node, pinned, n - 1) {
            Some(k) => Some(k),
            None => if !exempt(s[n - 1], node, pinned) { Some(n - 1) } else { None },
        }
    }
}

/// What eviction leaves of `s` and the image numbers it frees, in order:
/// while over `budget`, the least recently used slot that is not exempt goes;
/// when every slot is exempt, it stops over budget.
pub open spec fn evict(s: Seq<Slot>, node: u64, pinned: Seq<u64>, budget: u64) -> (Seq<Slot>, Seq<u32>)
    decreases s.len(),
{
    if total(s) <= budget {
        (s, Seq::empty())
    } else {
        match first_victim(s, node, pinned, s.len() as int) {
            None => (s, Seq::empty()),
            Some(i) => if 0 <= i < s.len() {
                let (rest, freed) = evict(s.remove(i), node, pinned, budget);
                (rest, seq![s[i].1.id] + freed)
            } else {
                (s, Seq::empty())
            },
        }
    }
}

/// `s` without `node`'s slot, if it had one.
pub open spec fn without(s: Seq<Slot>, node: u64) -> Seq<Slot> {
    match find(s, node) {
        Some(i) => s.remove(i),
        None => s,
    }
}

proof fn lemma_total_remove(s: Seq<Slot>, i: int)
    requires
        0 <= i < s.len(),
    ensures
        total(s.remove(i)) + s[i].1.bytes == total(s),
    decreases s.len(),
{
    if i == s.len() - 1 {
        assert(s.remove(i) =~= s.drop_last());
    } else {
        lemma_total_remove(s.drop_last(), i);
        assert(s.remove(i).drop_last() =~= s.drop_last().remove(i));
        assert(s.remove(i).last() == s.last());
    }
}

proof fn lemma_total_push(s: Seq<Slot>, x: Slot)
    ensures
        total(s.push(x)) == total(s) + x.1.bytes,
{
    assert(s.push(x).drop_last() =~= s);
}

proof fn lemma_position_stays(s: Seq<Slot>, node: u64, m: int, n: int)
    requires
        0 <= m <= n,
        position(s, node, m) is Some,
    ensures
        position(s, node, n) == position(s, node, m),
    decreases n - m,
{
    if n > m {
        lemma_position_stays(s, node, m, n - 1);
    }
}

pub proof fn lemma_position_bounds(s: Seq<Slot>, node: u64, n: int)
    ensures
        position(s, node, n) matches Some(k) ==> 0 <= k < n && s[k].0 == node,
        position(s, node, n) is None ==> forall|k: int| 0 <= k < n ==> s[k].0 != node,
    decreases n,
{
    if n > 0 {
        lemma_position_bounds(s, node, n - 1);
    }
}

proof fn lemma_first_victim_stays(s: Seq<Slot>, node: u64, pinned: Seq<u64>, m: int, n: int)
    requires
        0 <= m <= n,
        first_victim(s, node, pinned, m) is Some,
    ensures
        first_victim(s, node, pinned, n) == first_victim(s, node, pinned, m),
    decreases n - m,
{
    if n > m {
        lemma_first_victim_stays(s, node, pinned, m, n - 1);
    }
}

pub proof fn lemma_first_victim_bounds(s: Seq<Slot>, node: u64, pinned: Seq<u64>, n: int)
    ensures
        first_victim(s, node, pinned, n) matches Some(k) ==> 0 <= k < n && !exempt(s[k], node, pinned),
        first_victim(s, node, pinned, n) is None ==> forall|k: int| 0 <= k < n ==> exempt(#[trigger] s[k], node, pinned),
    decreases n,
{
    if n > 0 {
        lemma_first_victim_bounds(s, node, pinned, n - 1);
    }
}

pub proof fn lemma_distinct_remove(s: Seq<Slot>, i: int)
    requires
        nodes_distinct(s),
        0 <= i < s.len(),
    ensures
        nodes_distinct(s.remove(i)),
        forall|k: int| 0 <= k < s.remove(i).len() ==> (#[trigger] s.remove(i)[k]).0 != s[i].0,
{
    let r = s.remove(i);
    assert forall|a: int, b: int| 0 <= a < b < r.len() implies r[a].0 != r[b].0 by {
        let a2 = if a < i { a } else { a + 1 };
        let b2 = if b < i { b } else { b + 1 };
        assert(r[a] == s[a2] && r[b] == s[b2]);
    }
    assert forall|k: int| 0 <= k < r.len() implies (#[trigger] r[k]).0 != s[i].0 by {
        let k2 = if k < i { k } else { k + 1 };
        assert(r[k] == s[k2]);
    }
}

/// The resident set, least recently used first, bounded by a byte budget.
#[derive(Debug)]
pub struct RasterCache {
    slots: Vec<Slot>,
    bytes: u64,
    budget: u64,
}

impl View for RasterCache {
    type V = Seq<Slot>;

    closed spec fn view(&self) -> Seq<Slot> {
        self.slots@
    }
}

impl RasterCache {
    /// The byte budget this cache is kept within.
    pub closed spec fn budget_spec(&self) -> u64 {
        self.budget
    }

    /// Whether the slots are consistent: no node twice, and the running
    /// byte count is their sum.
    pub closed spec fn wf(&self) -> bool {
        &&& nodes_distinct(self.slots@)
        &&& self.bytes == total(self.slots@)
    }

    /// An empty cache kept within `budget` bytes.
    pub fn new(budget: u64) -> (c: RasterCache)
        ensures
            c.wf(),
            c@ == Seq::<Slot>::empty(),
            c.budget_spec() == budget,
    {
        RasterCache { slots: Vec::new(), bytes: 0, budget }
    }

    fn position_of(&self, node: u64) -> (r: Option<usize>)
        ensures
            match r {
                Some(i) => find(self@, node) == Some(i as int) && i < self@.len() && self@[i as int].0 == node,
                None => find(self@, node) is None,
            },
    {
        let mut i: usize = 0;
        while i < self.slots.len()
            invariant
                i <= self.slots@.len(),
                position(self.slots@, node, i as int) is None,
            decreases self.slots@.len() - i,
        {
            if self.slots[i].0 == node {
                proof {
                    assert(position(self.slots@, node, i + 1) == Some(i as int));
                    lemma_position_stays(self.slots@, node, i + 1, self.slots@.len() as int);
                }
                return Some(i);
            }
            i = i + 1;
        }
        None
    }

    /// The resident raster for `node` if it was rendered for `target`,
    /// marked most recently used; a raster rendered for another target is
    /// left where it is, since the caller is about to replace it.
    pub fn get(&mut self, node: u64, target: (u32, u32)) -> (r: Option<Resident>)
        requires
            old(self).wf(),
        ensures
            final(self).wf(),
            final(self).budget_spec() == old(self).budget_spec(),
            match find(old(self)@, node) {
                Some(i) => if old(self)@[i].1.rendered_px == target {
                    r == Some(old(self)@[i].1) && final(self)@ == old(self)@.remove(i).push(old(self)@[i])
                } else {
                    r is None && final(self)@ == old(self)@
                },
                None => r is None && final(self)@ == old(self)@,
            },
    {
        let p = match self.position_of(node) {
            Some(p) => p,
            None => return None,
        };
        let slot = self.slots[p];
        if slot.1.rendered_px.0 != target.0 || slot.1.rendered_px.1 != target.1 {
            return None;
        }
        let ghost s = self.slots@;
        let taken = self.slots.remove(p);
        self.slots.push(taken);
        proof {
            lemma_total_remove(s, p as int);
            lemma_total_push(s.remove(p as int), taken);
            lemma_distinct_remove(s, p as int);
            let t = s.remove(p as int).push(taken);
            assert forall|a: int, b: int| 0 <= a < b < t.len() implies t[a].0 != t[b].0 by {
                if b == t.len() - 1 {
                    assert(t[a] == s.remove(p as int)[a]);
                } else {
                    assert(t[a] == s.remove(p as int)[a] && t[b] == s.remove(p as int)[b]);
                }
            }
        }
        Some(taken.1)
    }

    /// The resident record for `node`, whatever it was rendered for, without
    /// disturbing the order.
    pub fn peek(&self, node: u64) -> (r: Option<Resident>)
        ensures
            match find(self@, node) {
                Some(i) => r == Some(self@[i].1),
                None => r is None,
            },
    {
        match self.position_of(node) {
            Some(p) => Some(self.slots[p].1),
            None => None,
        }
    }

    /// Whether any resident raster is image `id`.
    pub fn holds_id(&self, id: u32) -> (r: bool)
        ensures
            r == exists|i: int| 0 <= i < self@.len() && (#[trigger] self@[i]).1.id == id,
    {
        let mut i: usize = 0;
        while i < self.slots.len()
            invariant
                i <= self.slots@.len(),
                forall|k: int| 0 <= k < i ==> (#[trigger] self.slots@[k]).1.id != id,
            decreases self.slots@.len() - i,
        {
            if self.slots[i].1.id == id {
                assert(self@[i as int].1.id == id);
                return true;
            }
            i = i + 1;
        }
        false
    }

    /// How many bytes the resident rasters take.
    pub fn bytes_resident(&self) -> (n: u64)
        requires
            self.wf(),
        ensures
            n == total(self@),
    {
        self.bytes
    }

    /// How many rasters are resident.
    pub fn len(&self) -> (n: usize)
        ensures
            n == self@.len(),
    {
        self.slots.len()
    }

    /// Every node with a resident raster, least recently used first.
    pub fn resident_nodes(&self) -> (v: Vec<u64>)
        ensures
            v@ == Seq::new(self@.len(), |i: int| self@[i].0),
    {
        let mut v: Vec<u64> = Vec::new();
        let mut i: usize = 0;
        while i < self.slots.len()
            invariant
                i <= self.slots@.len(),
                v@ =~= Seq::new(i as nat, |k: int| self.slots@[k].0),
            decreases self.slots@.len() - i,
        {
            v.push(self.slots[i].0);
            i = i + 1;
        }
        v
    }

    /// Forgets `node` and hands back the image whose raster the caller must
    /// now free.
    pub fn remove(&mut self, node: u64) -> (r: Option<u32>)
        requires
            old(self).wf(),
        ensures
            final(self).wf(),
            final(self).budget_spec() == old(self).budget_spec(),
            final(self)@ == without(old(self)@, node),
            match find(old(self)@, node) {
                Some(i) => r == Some(old(self)@[i].1.id),
                None => r is None,
            },
    {
        let p = match self.position_of(node) {
            Some(p) => p,
            None => return None,
        };
        let ghost s = self.slots@;
        let taken = self.slots.remove(p);
        proof {
            lemma_total_remove(s, p as int);
            lemma_distinct_remove(s, p as int);
        }
        self.bytes = self.bytes - taken.1.bytes;
        Some(taken.1.id)
    }

    /// A consistent cache holds no node twice.
    pub proof fn lemma_distinct(&self)
        requires
            self.wf(),
        ensures
            nodes_distinct(self@),
    {
    }

    /// Forgets every raster and hands back their images, least recently used
    /// first, for the caller to free.
    pub fn drain(&mut self) -> (freed: Vec<u32>)
        ensures
            final(self).wf(),
            final(self).budget_spec() == old(self).budget_spec(),
            final(self)@ == Seq::<Slot>::empty(),
            freed@ == Seq::new(old(self)@.len(), |i: int| old(self)@[i].1.id),
    {
        let mut freed: Vec<u32> = Vec::new();
        let mut i: usize = 0;
        while i < self.slots.len()
            invariant
                i <= self.slots@.len(),
                self.slots@ == old(self)@,
                freed@ =~= Seq::new(i as nat, |k: int| self.slots@[k].1.id),
            decreases self.slots@.len() - i,
        {
            freed.push(self.slots[i].1.id);
            i = i + 1;
        }
        self.slots = Vec::new();
        self.bytes = 0;
        freed
    }

    /// Records `node`'s newly transmitted raster — replacing, not adding to,
    /// any earlier one — and hands back the images evicted to get back
    /// within the budget, least recently used first. Neither `node` nor a
    /// `pinned` node is ever a victim.
    pub fn insert(&mut self, node: u64, record: Resident, pinned: &[u64]) -> (freed: Vec<u32>)
        requires
            old(self).wf(),
            total(without(old(self)@, node)) + record.bytes <= u64::MAX,
        ensures
            final(self).wf(),
            final(self).budget_spec() == old(self).budget_spec(),
            ({
                let (kept, gone) = evict(without(old(self)@, node).push((node, record)), node, pinned@, old(self).budget_spec());
                final(self)@ == kept && freed@ == gone
            }),
    {
        let ghost s0 = self.slots@;
        match self.position_of(node) {
            Some(p) => {
                let taken = self.slots.remove(p);
                proof {
                    lemma_total_remove(s0, p as int);
                    lemma_distinct_remove(s0, p as int);
                }
                self.bytes = self.bytes - taken.1.bytes;
            },
            None => {
                proof {
                    lemma_position_bounds(s0, node, s0.len() as int);
                }
            },
        }
        let ghost s1 = self.slots@;
        assert(s1 == without(s0, node));
        assert(forall|k: int| 0 <= k < s1.len() ==> (#[trigger] s1[k]).0 != node) by {
            if let Some(p) = find(s0, node) {
                lemma_position_bounds(s0, node, s0.len() as int);
                lemma_distinct_remove(s0, p);
            } else {
                lemma_position_bounds(s0, node, s0.len() as int);
            }
        }
        self.slots.push((node, record));
        proof {
            lemma_total_push(s1, (node, record));
        }
        self.bytes = self.bytes + record.bytes;
        let ghost start = self.slots@;
        let ghost target = evict(start, node, pinned@, self.budget);
        assert forall|a: int, b: int| 0 <= a < b < start.len() implies start[a].0 != start[b].0 by {
            if b == start.len() - 1 {
                assert(start[a] == s1[a]);
            } else {
                assert(start[a] == s1[a] && start[b] == s1[b]);
            }
        }
        let mut freed: Vec<u32> = Vec::new();
        let mut done = false;
        while !done && self.bytes > self.budget
            invariant
                nodes_distinct(self.slots@),
                self.bytes == total(self.slots@),
                self.budget == old(self).budget,
                done ==> evict(self.slots@, node, pinned@, self.budget) == (self.slots@, Seq::<u32>::empty()),
                evict(self.slots@, node, pinned@, self.budget).0 == target.0,
                freed@ + evict(self.slots@, node, pinned@, self.budget).1 == target.1,
            decreases self.slots@.len() + (if done { 0int } else { 1int }),
        {
            let ghost cur = self.slots@;
            let mut v: usize = 0;
            let mut found = false;
            while !found && v < self.slots.len()
                invariant
                    v <= self.slots@.len(),
                    self.slots@ == cur,
                    !found ==> first_victim(cur, node, pinned@, v as int) is None,
                    found ==> v < cur.len() && first_victim(cur, node, pinned@, cur.len() as int) == Some(v as int),
                decreases self.slots@.len() - v + (if found { 0int } else { 1int }),
            {
                let n = self.slots[v].0;
                if n != node && !contains_node(pinned, n) {
                    proof {
                        assert(!exempt(cur[v as int], node, pinned@));
                        assert(first_victim(cur, node, pinned@, v + 1) == Some(v as int));
                        lemma_first_victim_stays(cur, node, pinned@, v + 1, cur.len() as int);
                    }
                    found = true;
                } else {
                    v = v + 1;
                }
            }
            if !found {
                assert(first_victim(cur, node, pinned@, cur.len() as int) is None);
                done = true;
            } else {
                let victim = self.slots.remove(v);
                proof {
                    lemma_total_remove(cur, v as int);
                    lemma_distinct_remove(cur, v as int);
                    let (rest, more) = evict(cur.remove(v as int), node, pinned@, self.budget);
                    assert(evict(cur, node, pinned@, self.budget) == (rest, seq![cur[v as int].1.id] + more));
                }
                self.bytes = self.bytes - victim.1.bytes;
                let ghost before = freed@;
                freed.push(victim.1.id);
                assert(freed@ + evict(self.slots@, node, pinned@, self.budget).1
                    =~= before + (seq![victim.1.id] + evict(self.slots@, node, pinned@, self.budget).1));
            }
        }
        assert(evict(self.slots@, node, pinned@, self.budget) == (self.slots@, Seq::<u32>::empty()));
        assert(freed@ =~= freed@ + Seq::<u32>::empty());
        freed
    }
}

fn contains_node(pinned: &[u64], n: u64) -> (r: bool)
    ensures
        r == pinned@.contains(n),
{
    let mut i: usize = 0;
    while i < pinned.len()
        invariant
            i <= pinned@.len(),
            forall|k: int| 0 <= k < i ==> pinned@[k] != n,
        decreases pinned@.len() - i,
    {
        if pinned[i] == n {
            return true;
        }
        i = i + 1;
    }
    false
}

/// Eviction never takes the inserted node nor a pinned one: every such slot
/// that was resident is resident afterwards.
pub proof fn law_a_pinned_raster_is_never_evicted(s: Seq<Slot>, node: u64, pinned: Seq<u64>, budget: u64)
    ensures
        forall|k: int| 0 <= k < s.len() && exempt(#[trigger] s[k], node, pinned)
            ==> evict(s, node, pinned, budget).0.contains(s[k]),
    decreases s.len(),
{
    if total(s) <= budget {
        assert forall|k: int| 0 <= k < s.len() && exempt(#[trigger] s[k], node, pinned)
            implies evict(s, node, pinned, budget).0.contains(s[k]) by {
            assert(s[k] == s[k]);
        }
    } else {
        lemma_first_victim_bounds(s, node, pinned, s.len() as int);
        match first_victim(s, node, pinned, s.len() as int) {
            None => {
                assert forall|k: int| 0 <= k < s.len() && exempt(#[trigger] s[k], node, pinned)
                    implies evict(s, node, pinned, budget).0.contains(s[k]) by {
                    assert(s[k] == s[k]);
                }
            },
            Some(i) => {
                let r = s.remove(i);
                law_a_pinned_raster_is_never_evicted(r, node, pinned, budget);
                assert forall|k: int| 0 <= k < s.len() && exempt(#[trigger] s[k], node, pinned)
                    implies evict(s, node, pinned, budget).0.contains(s[k]) by {
                    assert(k != i);
                    let k2 = if k < i { k } else { k - 1 };
                    assert(r[k2] == s[k]);
                    assert(exempt(r[k2], node, pinned));
                }
            },
        }
    }
}

/// After eviction the cache is within its budget, unless every slot left is
/// exempt — the inserted node or a pinned one — and going over beats
/// blanking a box on screen.
pub proof fn law_the_budget_holds_unless_everything_left_is_pinned(s: Seq<Slot>, node: u64, pinned: Seq<u64>, budget: u64)
    ensures
        total(evict(s, node, pinned, budget).0) <= budget
            || forall|k: int| 0 <= k < evict(s, node, pinned, budget).0.len()
                ==> exempt(#[trigger] evict(s, node, pinned, budget).0[k], node, pinned),
    decreases s.len(),
{
    if total(s) > budget {
        lemma_first_victim_bounds(s, node, pinned, s.len() as int);
        if let Some(i) = first_victim(s, node, pinned, s.len() as int) {
            law_the_budget_holds_unless_everything_left_is_pinned(s.remove(i), node, pinned, budget);
        }
    }
}

} // verus!
