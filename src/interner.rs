use vstd::prelude::*;
use vstd::std_specs::cmp::PartialEqSpec;

use crate::holder::InternedItemHolder;

verus! {

/// The capacity of the first block.
pub const BEGIN_INTERNER_CAPACITY: usize = 32;

/// The capacity that follows a block of capacity `c`: floor(c × 1.5).
pub open spec fn next_capacity(c: nat) -> nat {
    (c * 3) / 2
}

/// The capacity of the block at position `k` of an interner.
pub open spec fn holder_capacity(k: nat) -> nat
    decreases k,
{
    if k == 0 {
        BEGIN_INTERNER_CAPACITY as nat
    } else {
        next_capacity(holder_capacity((k - 1) as nat))
    }
}

/// How many slots the blocks before position `k` have together.
pub open spec fn capacity_before(k: nat) -> nat
    decreases k,
{
    if k == 0 {
        0
    } else {
        capacity_before((k - 1) as nat) + holder_capacity((k - 1) as nat)
    }
}

/// Blocks further on begin further on.
proof fn lemma_capacity_before_mono(a: nat, b: nat)
    requires
        a <= b,
    ensures
        capacity_before(a) <= capacity_before(b),
        a < b ==> capacity_before(a + 1) <= capacity_before(b),
    decreases b - a,
{
    if a < b {
        lemma_capacity_before_mono(a, (b - 1) as nat);
    }
}

/// No block is smaller than the first one.
proof fn lemma_holder_capacity_min(k: nat)
    ensures
        holder_capacity(k) >= BEGIN_INTERNER_CAPACITY,
    decreases k,
{
    if k > 0 {
        lemma_holder_capacity_min((k - 1) as nat);
    }
}

/// Every value that a sequence of blocks holds, block after block.
pub open spec fn stored<T>(hs: Seq<InternedItemHolder<T>>) -> Seq<T>
    decreases hs.len(),
{
    if hs.len() == 0 {
        Seq::empty()
    } else {
        stored(hs.drop_last()) + hs.last()@
    }
}

/// Of two positions, the later value never equals the earlier one.
pub open spec fn no_equal_pair<T: PartialEq>(s: Seq<T>) -> bool {
    forall|i: int, j: int| 0 <= i < j < s.len() ==> !#[trigger] s[j].eq_spec(&s[i])
}

/// The position of the first value of `s` that `x` equals, or `s.len()` when
/// there is none.
pub open spec fn find_index<T: PartialEq>(s: Seq<T>, x: T) -> int
    decreases s.len(),
{
    if s.len() == 0 {
        0
    } else if x.eq_spec(&s[0]) {
        0
    } else {
        1 + find_index(s.drop_first(), x)
    }
}

/// The stored values after interning `x` into `s`: unchanged when an equal
/// value is already there, `x` appended otherwise.
pub open spec fn interned<T: PartialEq>(s: Seq<T>, x: T) -> Seq<T> {
    if find_index(s, x) < s.len() {
        s
    } else {
        s.push(x)
    }
}

/// The stored values after interning each of `xs` in turn into `s`.
pub open spec fn interned_all<T: PartialEq>(s: Seq<T>, xs: Seq<T>) -> Seq<T>
    decreases xs.len(),
{
    if xs.len() == 0 {
        s
    } else {
        interned(interned_all(s, xs.drop_last()), xs.last())
    }
}

/// `find_index` is the first position `p` at which `x` matches, when no
/// earlier position matches.
pub(crate) proof fn lemma_find_index<T: PartialEq>(s: Seq<T>, x: T, p: int)
    requires
        0 <= p <= s.len(),
        forall|i: int| 0 <= i < p ==> !x.eq_spec(&s[i]),
        p < s.len() ==> x.eq_spec(&s[p]),
    ensures
        find_index(s, x) == p,
    decreases s.len(),
{
    if s.len() > 0 && p > 0 {
        let t = s.drop_first();
        assert forall|i: int| 0 <= i < p - 1 implies !x.eq_spec(&t[i]) by {
            assert(t[i] == s[i + 1]);
        }
        if p < s.len() {
            assert(t[p - 1] == s[p]);
        }
        lemma_find_index(t, x, p - 1);
        assert(!x.eq_spec(&s[0]));
    }
}

/// `find_index` stays within `0..=s.len()`; below `s.len()` it names a match.
pub(crate) proof fn lemma_find_index_range<T: PartialEq>(s: Seq<T>, x: T)
    ensures
        0 <= find_index(s, x) <= s.len(),
        find_index(s, x) < s.len() ==> x.eq_spec(&s[find_index(s, x)]),
        forall|i: int| 0 <= i < find_index(s, x) ==> !x.eq_spec(&s[i]),
    decreases s.len(),
{
    if s.len() > 0 && !x.eq_spec(&s[0]) {
        let t = s.drop_first();
        lemma_find_index_range(t, x);
        assert forall|i: int| 0 <= i < find_index(s, x) implies !x.eq_spec(&s[i]) by {
            if i > 0 {
                assert(s[i] == t[i - 1]);
            }
        }
    }
}

/// The blocks up to `k + 1` hold what the blocks up to `k` hold, then block `k`.
proof fn lemma_stored_take_succ<T>(hs: Seq<InternedItemHolder<T>>, k: int)
    requires
        0 <= k < hs.len(),
    ensures
        stored(hs.take(k + 1)) == stored(hs.take(k)) + hs[k]@,
{
    assert(hs.take(k + 1).drop_last() =~= hs.take(k));
}

/// What the first `k` blocks hold is a prefix of what the first `m` hold.
proof fn lemma_stored_prefix<T>(hs: Seq<InternedItemHolder<T>>, k: int, m: int)
    requires
        0 <= k <= m <= hs.len(),
    ensures
        stored(hs.take(k)).len() <= stored(hs.take(m)).len(),
        stored(hs.take(m)).take(stored(hs.take(k)).len() as int) == stored(hs.take(k)),
    decreases m - k,
{
    if k < m {
        lemma_stored_prefix(hs, k, m - 1);
        lemma_stored_take_succ(hs, m - 1);
        let a = stored(hs.take(k));
        let b = stored(hs.take(m - 1));
        assert((b + hs[m - 1]@).take(a.len() as int) =~= b.take(a.len() as int));
    } else {
        assert(stored(hs.take(m)).take(stored(hs.take(m)).len() as int) =~= stored(hs.take(m)));
    }
}

/// Slot `j` of block `k` stands at position `start + j` of everything stored,
/// where `start` is what the blocks before `k` hold.
proof fn lemma_stored_index<T>(hs: Seq<InternedItemHolder<T>>, k: int, j: int)
    requires
        0 <= k < hs.len(),
        0 <= j < hs[k]@.len(),
    ensures
        stored(hs.take(k)).len() + j < stored(hs).len(),
        stored(hs)[stored(hs.take(k)).len() + j] == hs[k]@[j],
{
    lemma_stored_take_succ(hs, k);
    lemma_stored_prefix(hs, k + 1, hs.len() as int);
    assert(hs.take(hs.len() as int) =~= hs);
    let p = stored(hs.take(k + 1));
    let n = stored(hs.take(k)).len() + j;
    assert(stored(hs).take(p.len() as int)[n] == p[n]);
}

/// A handle to an interned value.
///
/// It names the block and the slot that hold the value, which never change
/// while the interner lives: two handles from one interner are equal exactly
/// when they name the same stored value, and hashing goes by that place too.
#[derive(Clone, Copy, PartialEq, Eq, Structural, Hash, Debug)]
pub struct Intern {
    holder: usize,
    slot: usize,
}

/// An interner: it owns the interned values and keeps at most one of each.
pub struct Interner<T> {
    /// Blocks in the order of their creation; the last one is filled next.
    holders: Vec<InternedItemHolder<T>>,
}

impl<T> View for Interner<T> {
    type V = Seq<T>;

    /// The stored values, in the order in which they were stored.
    open spec fn view(&self) -> Seq<T> {
        stored(self.spec_holders())
    }
}

impl<T> Interner<T> {
    /// The blocks, in the order of their creation.
    pub closed spec fn spec_holders(&self) -> Seq<InternedItemHolder<T>> {
        self.holders@
    }

    /// The shape of the blocks: at least one; block `k` well formed with
    /// capacity `holder_capacity(k)`; every block but the last one full;
    /// the last one empty only while it is the first.
    pub open spec fn layout(&self) -> bool {
        let hs = self.spec_holders();
        &&& hs.len() >= 1
        &&& forall|k: int|
            0 <= k < hs.len() ==> (#[trigger] hs[k]).wf() && hs[k].spec_capacity()
                == holder_capacity(k as nat)
        &&& forall|k: int| 0 <= k < hs.len() - 1 ==> (#[trigger] hs[k])@.len() == hs[k].spec_capacity()
        &&& hs.len() > 1 ==> hs.last()@.len() > 0
        &&& stored(hs).len() <= usize::MAX
    }

    /// Where block `k` begins among the stored values.
    pub closed spec fn start(&self, k: int) -> int {
        stored(self.holders@.take(k)).len() as int
    }

    /// `h` names an occupied slot of this interner.
    pub closed spec fn is_valid(&self, h: Intern) -> bool {
        &&& h.holder < self.holders@.len()
        &&& h.slot < self.holders@[h.holder as int]@.len()
    }

    /// The position among the stored values of the slot that `h` names.
    pub closed spec fn index_of(&self, h: Intern) -> int {
        self.start(h.holder as int) + h.slot
    }

    /// A valid handle names a position among the stored values.
    pub proof fn lemma_valid_index(&self, h: Intern)
        requires
            self.is_valid(h),
        ensures
            0 <= self.index_of(h) < self@.len(),
    {
        self.lemma_slot_index(h);
    }

    /// The slot that a valid handle names holds the value at its position.
    proof fn lemma_slot_index(&self, h: Intern)
        requires
            self.is_valid(h),
        ensures
            0 <= self.index_of(h) < self@.len(),
            self@[self.index_of(h)] == self.holders@[h.holder as int]@[h.slot as int],
    {
        lemma_stored_index(self.holders@, h.holder as int, h.slot as int);
    }

    /// Stores `item` in the last block, or in a new block when the last one
    /// is full, and returns the handle of its slot.
    fn hold_new_item(&mut self, item: T) -> (h: Intern)
        requires
            old(self).layout(),
            old(self)@.len() < usize::MAX / 2,
        ensures
            final(self).layout(),
            final(self)@ == old(self)@.push(item),
            final(self).is_valid(h),
            final(self).index_of(h) == old(self)@.len(),
            old(self).spec_holders().last()@.len() < old(self).spec_holders().last().spec_capacity()
                ==> final(self).spec_holders().len() == old(self).spec_holders().len(),
            old(self).spec_holders().last()@.len() >= old(self).spec_holders().last().spec_capacity()
                ==> final(self).spec_holders().len() == old(self).spec_holders().len() + 1,
            forall|g: Intern|
                old(self).is_valid(g) ==> final(self).is_valid(g) && final(self).index_of(g)
                    == old(self).index_of(g),
    {
        let ghost hs0 = self.holders@;
        let last = self.holders.len() - 1;
        proof {
            lemma_stored_take_succ(hs0, last as int);
            assert(hs0.take(last as int + 1) =~= hs0);
            assert(hs0.take(last as int) =~= hs0.drop_last());
        }
        let slot = self.holders[last].len();
        match self.holders[last].try_push(item) {
            Ok(()) => {
                let ghost hs1 = self.holders@;
                proof {
                    assert(hs1.drop_last() =~= hs0.drop_last());
                    assert forall|k: int| 0 <= k <= last implies hs1.take(k) =~= hs0.take(k) by {}
                    assert(stored(hs1) =~= stored(hs0).push(item));
                }
                Intern { holder: last, slot }
            }
            Err(item) => {
                let cap = self.holders[last].capacity();
                proof {
                    lemma_holder_capacity_min(last as nat);
                }
                let mut new_holder = InternedItemHolder::new(cap + cap / 2);
                let _ = new_holder.try_push(item);
                assert(new_holder@ =~= seq![item]);
                self.holders.push(new_holder);
                let ghost hs1 = self.holders@;
                proof {
                    assert(hs1.drop_last() =~= hs0);
                    let c = holder_capacity(last as nat);
                    assert(c + c / 2 == (c * 3) / 2);
                    assert forall|k: int| 0 <= k < hs1.len() - 1 implies (#[trigger] hs1[k])@.len()
                        == hs1[k].spec_capacity() by {
                        assert(hs1[k] == hs0[k]);
                    }
                    assert forall|k: int| 0 <= k <= last + 1 implies hs1.take(k) =~= hs0.take(k) by {}
                    assert(stored(hs1) =~= stored(hs0).push(item));
                }
                Intern { holder: last + 1, slot: 0 }
            }
        }
    }
}

impl<T> Interner<T> {
    /// Two handles of this interner are equal exactly when they name the
    /// same position among the stored values.
    pub proof fn lemma_handle_identity(&self, a: Intern, b: Intern)
        requires
            self.is_valid(a),
            self.is_valid(b),
        ensures
            (a == b) <==> (self.index_of(a) == self.index_of(b)),
    {
        let hs = self.holders@;
        if a.holder < b.holder {
            lemma_stored_take_succ(hs, a.holder as int);
            lemma_stored_prefix(hs, a.holder + 1, b.holder as int);
        } else if b.holder < a.holder {
            lemma_stored_take_succ(hs, b.holder as int);
            lemma_stored_prefix(hs, b.holder + 1, a.holder as int);
        }
    }

    /// Once more values are stored than the first block holds, a second
    /// block exists, with capacity floor(32 × 1.5) = 48; up to 80 values
    /// there are exactly these two, the first full and the second holding the
    /// rest.
    pub proof fn lemma_second_holder(&self)
        requires
            self.layout(),
            self@.len() > BEGIN_INTERNER_CAPACITY,
        ensures
            self.spec_holders().len() >= 2,
            self.spec_holders()[0].spec_capacity() == 32,
            self.spec_holders()[1].spec_capacity() == 48,
            self@.len() <= 80 ==> {
                &&& self.spec_holders().len() == 2
                &&& self.spec_holders()[0]@.len() == 32
                &&& self.spec_holders()[1]@.len() == self@.len() - 32
            },
    {
        let hs = self.holders@;
        if hs.len() == 1 {
            assert(hs.drop_last() =~= Seq::<InternedItemHolder<T>>::empty());
            reveal_with_fuel(stored, 2);
            assert(false);
        }
        reveal_with_fuel(holder_capacity, 2);
        reveal_with_fuel(capacity_before, 3);
        if self@.len() <= 80 {
            self.lemma_shape(1);
        }
    }

    /// The full blocks before the last one begin where their capacities say.
    proof fn lemma_start_full(&self, i: int)
        requires
            self.layout(),
            0 <= i < self.spec_holders().len(),
        ensures
            self.start(i) == capacity_before(i as nat),
        decreases i,
    {
        if i > 0 {
            self.lemma_start_full(i - 1);
            lemma_stored_take_succ(self.holders@, i - 1);
        }
    }

    /// The number of stored values fixes the blocks: when it lies in
    /// `capacity_before(k) + 1 ..= capacity_before(k + 1)`, there are exactly
    /// `k + 1` blocks, those before block `k` are full, and block `k` holds the
    /// rest.
    pub proof fn lemma_shape(&self, k: nat)
        requires
            self.layout(),
            capacity_before(k) < self@.len() <= capacity_before(k + 1),
        ensures
            self.spec_holders().len() == k + 1,
            forall|i: int| 0 <= i < k ==> #[trigger] self.spec_holders()[i]@.len() == holder_capacity(i as nat),
            self.spec_holders()[k as int]@.len() == self@.len() - capacity_before(k),
    {
        let hs = self.holders@;
        let n = hs.len();
        let last = n - 1;
        self.lemma_start_full(last);
        lemma_stored_take_succ(hs, last);
        assert(hs.take(n as int) =~= hs);
        if last < k {
            lemma_capacity_before_mono((last + 1) as nat, k);
        } else if last > k {
            lemma_capacity_before_mono(k + 1, last as nat);
        }
    }

    /// The value that `h` names.
    pub fn get(&self, h: Intern) -> (r: &T)
        requires
            self.is_valid(h),
        ensures
            *r == self@[self.index_of(h)],
    {
        proof {
            self.lemma_slot_index(h);
        }
        self.holders[h.holder].get(h.slot).unwrap()
    }

    /// The blocks, in the order of their creation.
    pub fn holders(&self) -> (r: &Vec<InternedItemHolder<T>>)
        ensures
            r@ == self.spec_holders(),
    {
        &self.holders
    }

    /// The number of stored values.
    pub fn len(&self) -> (r: usize)
        requires
            self.layout(),
        ensures
            r == self@.len(),
    {
        let n = self.holders.len();
        let mut total: usize = 0;
        let mut k: usize = 0;
        while k < n
            invariant
                self.layout(),
                n == self.holders@.len(),
                0 <= k <= n,
                total == self.start(k as int),
            decreases n - k,
        {
            proof {
                lemma_stored_take_succ(self.holders@, k as int);
                lemma_stored_prefix(self.holders@, k + 1, n as int);
                assert(self.holders@.take(n as int) =~= self.holders@);
            }
            total = total + self.holders[k].len();
            k += 1;
        }
        proof {
            assert(self.holders@.take(n as int) =~= self.holders@);
        }
        total
    }

    /// A handle for every stored value, in the order in which the values were
    /// stored: the `i`th handle names position `i`, so each stored value has
    /// exactly one handle here.
    pub fn iterate(&self) -> (r: Vec<Intern>)
        requires
            self.layout(),
        ensures
            r@.len() == self@.len(),
            forall|i: int|
                0 <= i < r@.len() ==> self.is_valid(#[trigger] r@[i]) && self.index_of(r@[i]) == i,
            forall|i: int, j: int| 0 <= i < j < r@.len() ==> r@[i] != r@[j],
            forall|h: Intern| #[trigger] self.is_valid(h) ==> r@.contains(h),
    {
        let n = self.holders.len();
        let mut r: Vec<Intern> = Vec::new();
        let mut k: usize = 0;
        while k < n
            invariant
                self.layout(),
                n == self.holders@.len(),
                0 <= k <= n,
                r@.len() == self.start(k as int),
                forall|i: int|
                    0 <= i < r@.len() ==> self.is_valid(#[trigger] r@[i]) && self.index_of(r@[i]) == i,
            decreases n - k,
        {
            let m = self.holders[k].len();
            let mut j: usize = 0;
            while j < m
                invariant
                    self.layout(),
                    n == self.holders@.len(),
                    0 <= k < n,
                    m == self.holders@[k as int]@.len(),
                    0 <= j <= m,
                    r@.len() == self.start(k as int) + j,
                    forall|i: int|
                        0 <= i < r@.len() ==> self.is_valid(#[trigger] r@[i]) && self.index_of(r@[i]) == i,
                decreases m - j,
            {
                r.push(Intern { holder: k, slot: j });
                j += 1;
            }
            proof {
                lemma_stored_take_succ(self.holders@, k as int);
            }
            k += 1;
        }
        proof {
            assert(self.holders@.take(n as int) =~= self.holders@);
            assert forall|h: Intern| #[trigger] self.is_valid(h) implies r@.contains(h) by {
                self.lemma_valid_index(h);
                let i = self.index_of(h);
                self.lemma_handle_identity(h, r@[i]);
            }
        }
        r
    }
}

impl<T: Eq> Interner<T> {
    /// The blocks are laid out as `layout` says and no two stored values are
    /// equal.
    pub open spec fn wf(&self) -> bool {
        &&& self.layout()
        &&& no_equal_pair(self@)
    }

    /// An interner with one empty block of `BEGIN_INTERNER_CAPACITY` slots.
    pub fn new() -> (r: Self)
        ensures
            r.wf(),
            r@ == Seq::<T>::empty(),
            r.spec_holders().len() == 1,
            r.spec_holders()[0]@.len() == 0,
            r.spec_holders()[0].spec_capacity() == BEGIN_INTERNER_CAPACITY,
    {
        let r = Interner { holders: vec![InternedItemHolder::new(BEGIN_INTERNER_CAPACITY)] };
        proof {
            assert(r.holders@.drop_last() =~= Seq::<InternedItemHolder<T>>::empty());
            reveal_with_fuel(stored, 2);
            assert(r@ =~= Seq::<T>::empty());
        }
        r
    }

    /// The handle of the first stored value that `item` equals, if any.
    fn find(&self, item: &T) -> (r: Option<Intern>)
        requires
            self.layout(),
            T::obeys_eq_spec(),
        ensures
            match r {
                Some(h) => self.is_valid(h) && self.index_of(h) == find_index(self@, *item),
                None => find_index(self@, *item) == self@.len(),
            },
    {
        let n = self.holders.len();
        let mut k: usize = 0;
        while k < n
            invariant
                self.layout(),
                T::obeys_eq_spec(),
                n == self.holders@.len(),
                0 <= k <= n,
                forall|i: int| 0 <= i < self.start(k as int) ==> !item.eq_spec(&self@[i]),
            decreases n - k,
        {
            let holder = &self.holders[k];
            let m = holder.len();
            let mut j: usize = 0;
            while j < m
                invariant
                    self.layout(),
                    T::obeys_eq_spec(),
                    n == self.holders@.len(),
                    0 <= k < n,
                    *holder == self.holders@[k as int],
                    m == holder@.len(),
                    0 <= j <= m,
                    forall|i: int| 0 <= i < self.start(k as int) + j ==> !item.eq_spec(&self@[i]),
                decreases m - j,
            {
                let v = holder.get(j).unwrap();
                proof {
                    lemma_stored_index(self.holders@, k as int, j as int);
                }
                if item == v {
                    proof {
                        lemma_find_index(self@, *item, self.start(k as int) + j);
                    }
                    return Some(Intern { holder: k, slot: j });
                }
                j += 1;
            }
            proof {
                lemma_stored_take_succ(self.holders@, k as int);
            }
            k += 1;
        }
        proof {
            assert(self.holders@.take(n as int) =~= self.holders@);
            lemma_find_index(self@, *item, self@.len() as int);
        }
        None
    }

    /// Interns `item`: returns the handle of the stored value equal to it,
    /// or stores `item` and returns the handle of its new slot. Handles given
    /// out before keep naming the same slot, which keeps its value.
    ///
    /// No allocation spans more than `isize::MAX` bytes, so the count of
    /// stored values stays below `usize::MAX / 2`; under that bound the
    /// capacity of a new block, at most 1.5 times the count, fits in `usize`.
    pub fn intern(&mut self, item: T) -> (h: Intern)
        requires
            old(self).wf(),
            T::obeys_eq_spec(),
            old(self)@.len() < usize::MAX / 2,
        ensures
            final(self).wf(),
            final(self)@ == interned(old(self)@, item),
            final(self).is_valid(h),
            final(self).index_of(h) == find_index(old(self)@, item),
            final(self)@[final(self).index_of(h)] == item || item.eq_spec(&final(self)@[final(self).index_of(h)]),
            forall|g: Intern|
                #![trigger old(self).is_valid(g)]
                old(self).is_valid(g) ==> {
                    &&& final(self).is_valid(g)
                    &&& final(self).index_of(g) == old(self).index_of(g)
                    &&& final(self)@[final(self).index_of(g)] == old(self)@[old(self).index_of(g)]
                },
    {
        match self.find(&item) {
            Some(h) => {
                proof {
                    self.lemma_valid_index(h);
                    lemma_find_index_range(self@, item);
                }
                h
            },
            None => {
                proof {
                    lemma_find_index_range(self@, item);
                }
                let h = self.hold_new_item(item);
                proof {
                    assert forall|g: Intern| old(self).is_valid(g) implies final(self)@[final(self).index_of(g)]
                        == old(self)@[old(self).index_of(g)] by {
                        old(self).lemma_valid_index(g);
                    }
                }
                h
            }
        }
    }

    /// Whether a value equal to `value` is stored.
    pub fn contains(&self, value: &T) -> (r: bool)
        requires
            self.wf(),
            T::obeys_eq_spec(),
        ensures
            r == exists|i: int| 0 <= i < self@.len() && value.eq_spec(&self@[i]),
    {
        let found = self.find(value);
        proof {
            lemma_find_index_range(self@, *value);
            if let Some(h) = found {
                self.lemma_valid_index(h);
            }
        }
        found.is_some()
    }
}
} // verus!
