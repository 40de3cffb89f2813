use vstd::prelude::*;
use vstd::std_specs::cmp::PartialEqSpec;

use crate::interner::{
    find_index, interned, interned_all, lemma_find_index, lemma_find_index_range, no_equal_pair, Intern,
    Interner,
};

verus! {

/// `==` on `T` behaves as `eq_spec` says, and `eq_spec` is an equivalence
/// relation, as `Eq` asks of every implementation.
#[verifier::opaque]
pub open spec fn lawful_eq<T: PartialEq>() -> bool {
    &&& T::obeys_eq_spec()
    &&& forall|x: T| #[trigger] x.eq_spec(&x)
    &&& forall|x: T, y: T| #[trigger] x.eq_spec(&y) ==> y.eq_spec(&x)
    &&& forall|x: T, y: T, z: T| #[trigger] x.eq_spec(&y) && #[trigger] y.eq_spec(&z) ==> x.eq_spec(&z)
}

/// `u64` has lawful equality.
pub proof fn lemma_u64_lawful_eq()
    ensures
        lawful_eq::<u64>(),
{
    reveal(lawful_eq);
}

/// Every value equals itself.
proof fn lemma_eq_refl<T: PartialEq>(x: T)
    requires
        lawful_eq::<T>(),
    ensures
        x.eq_spec(&x),
{
    reveal(lawful_eq);
}

/// Equality holds both ways.
proof fn lemma_eq_symm<T: PartialEq>(x: T, y: T)
    requires
        lawful_eq::<T>(),
        x.eq_spec(&y),
    ensures
        y.eq_spec(&x),
{
    reveal(lawful_eq);
}

/// Equality carries over through a middle value.
proof fn lemma_eq_trans<T: PartialEq>(x: T, y: T, z: T)
    requires
        lawful_eq::<T>(),
        x.eq_spec(&y),
        y.eq_spec(&z),
    ensures
        x.eq_spec(&z),
{
    reveal(lawful_eq);
}

/// `x` equals some value of `s`.
pub open spec fn has_equal<T: PartialEq>(s: Seq<T>, x: T) -> bool {
    exists|j: int| 0 <= j < s.len() && x.eq_spec(&s[j])
}

/// Every value of `xs` equals a value of `s`.
#[verifier::opaque]
pub open spec fn covers<T: PartialEq>(s: Seq<T>, xs: Seq<T>) -> bool {
    forall|i: int| 0 <= i < xs.len() ==> has_equal(s, #[trigger] xs[i])
}

/// Every value of `s` is one of `xs`.
#[verifier::opaque]
pub open spec fn drawn_from<T>(s: Seq<T>, xs: Seq<T>) -> bool {
    forall|j: int| 0 <= j < s.len() ==> xs.contains(#[trigger] s[j])
}

/// The number of classes of equal values among `xs`: the inputs that equal
/// no input before them.
pub open spec fn class_count<T: PartialEq>(xs: Seq<T>) -> nat
    decreases xs.len(),
{
    if xs.len() == 0 {
        0
    } else {
        let rest = xs.drop_last();
        class_count(rest) + if exists|k: int| 0 <= k < rest.len() && xs.last().eq_spec(&rest[k]) {
            0nat
        } else {
            1nat
        }
    }
}

/// Interning keeps stored values pairwise unequal.
pub proof fn lemma_interned_no_equal_pair<T: PartialEq>(s: Seq<T>, x: T)
    requires
        no_equal_pair(s),
    ensures
        no_equal_pair(interned(s, x)),
{
    lemma_find_index_range(s, x);
}

/// One more input: the stored values grow by one exactly when the input
/// equals no earlier input.
proof fn lemma_dedup_step_count<T: PartialEq>(s: Seq<T>, rest: Seq<T>, x: T)
    requires
        lawful_eq::<T>(),
        covers(s, rest),
        drawn_from(s, rest),
        s.len() == class_count(rest),
    ensures
        interned(s, x).len() == class_count(rest.push(x)),
{
    let xs = rest.push(x);
    assert(xs.drop_last() =~= rest);
    lemma_find_index_range(s, x);
    let earlier = exists|k: int| 0 <= k < rest.len() && x.eq_spec(&rest[k]);
    if find_index(s, x) < s.len() {
        reveal(drawn_from);
        let p = find_index(s, x);
        assert(rest.contains(s[p]));
        let i = choose|i: int| 0 <= i < rest.len() && rest[i] == s[p];
        assert(x.eq_spec(&rest[i]));
        assert(earlier);
    } else if earlier {
        reveal(covers);
        let k = choose|k: int| 0 <= k < rest.len() && x.eq_spec(&rest[k]);
        assert(has_equal(s, rest[k]));
        let j = choose|j: int| 0 <= j < s.len() && rest[k].eq_spec(&s[j]);
        lemma_eq_trans(x, rest[k], s[j]);
        assert(false);
    }
}

/// One more input: every input still equals a stored value.
proof fn lemma_dedup_step_covers<T: PartialEq>(s: Seq<T>, rest: Seq<T>, x: T)
    requires
        lawful_eq::<T>(),
        covers(s, rest),
    ensures
        covers(interned(s, x), rest.push(x)),
{
    let xs = rest.push(x);
    let t = interned(s, x);
    reveal(covers);
    lemma_find_index_range(s, x);
    lemma_eq_refl(x);
    assert forall|i: int| 0 <= i < xs.len() implies has_equal(t, #[trigger] xs[i]) by {
        if i < rest.len() {
            assert(xs[i] == rest[i]);
            assert(has_equal(s, rest[i]));
            let j = choose|j: int| 0 <= j < s.len() && rest[i].eq_spec(&s[j]);
            assert(t[j] == s[j]);
        } else if find_index(s, x) < s.len() {
            assert(t[find_index(s, x)] == s[find_index(s, x)]);
        } else {
            assert(xs[i].eq_spec(&t[s.len() as int]));
        }
    }
}

/// One more input: every stored value is still one of the inputs.
proof fn lemma_dedup_step_drawn<T: PartialEq>(s: Seq<T>, rest: Seq<T>, x: T)
    requires
        drawn_from(s, rest),
    ensures
        drawn_from(interned(s, x), rest.push(x)),
{
    let xs = rest.push(x);
    let t = interned(s, x);
    reveal(drawn_from);
    assert forall|j: int| 0 <= j < t.len() implies xs.contains(#[trigger] t[j]) by {
        if j < s.len() {
            assert(t[j] == s[j]);
            assert(rest.contains(s[j]));
            let i = choose|i: int| 0 <= i < rest.len() && rest[i] == s[j];
            assert(xs[i] == rest[i]);
        } else {
            assert(t[j] == xs[xs.len() - 1]);
        }
    }
}

/// Interning any sequence of values into an empty interner stores exactly
/// one value for each class of equal inputs, whatever their order and
/// repetition: no two stored values are equal, every input equals a stored
/// value, every stored value is one of the inputs, and there are as many
/// stored values as classes.
pub proof fn lemma_interned_all_dedup<T: PartialEq>(xs: Seq<T>)
    requires
        lawful_eq::<T>(),
    ensures
        no_equal_pair(interned_all(Seq::empty(), xs)),
        covers(interned_all(Seq::empty(), xs), xs),
        drawn_from(interned_all(Seq::empty(), xs), xs),
        interned_all(Seq::empty(), xs).len() == class_count(xs),
    decreases xs.len(),
{
    if xs.len() > 0 {
        let rest = xs.drop_last();
        lemma_interned_all_dedup(rest);
        let s = interned_all(Seq::empty(), rest);
        lemma_interned_no_equal_pair(s, xs.last());
        lemma_dedup_step_count(s, rest, xs.last());
        lemma_dedup_step_covers(s, rest, xs.last());
        lemma_dedup_step_drawn(s, rest, xs.last());
        assert(rest.push(xs.last()) =~= xs);
    } else {
        reveal(covers);
        reveal(drawn_from);
    }
}

/// Interning `x` and then `y` into values with no two equal ones gives
/// the same position both times exactly when `x` and `y` are equal.
pub proof fn lemma_intern_twice<T: PartialEq>(s: Seq<T>, x: T, y: T)
    requires
        lawful_eq::<T>(),
        no_equal_pair(s),
    ensures
        find_index(interned(s, x), y) == find_index(s, x) <==> x.eq_spec(&y),
{
    let p = find_index(s, x);
    let s1 = interned(s, x);
    lemma_find_index_range(s, x);
    lemma_interned_no_equal_pair(s, x);
    lemma_eq_refl(x);
    assert(p < s1.len() && x.eq_spec(&s1[p]));
    lemma_find_index_range(s1, y);
    if x.eq_spec(&y) {
        lemma_eq_symm(x, y);
        lemma_eq_trans(y, x, s1[p]);
        assert forall|i: int| 0 <= i < p implies !y.eq_spec(&s1[i]) by {
            if y.eq_spec(&s1[i]) {
                lemma_eq_symm(x, s1[p]);
                lemma_eq_trans(s1[p], x, y);
                lemma_eq_trans(s1[p], y, s1[i]);
            }
        }
        lemma_find_index(s1, y, p);
    }
    if find_index(s1, y) == p {
        lemma_eq_symm(y, s1[p]);
        lemma_eq_trans(x, s1[p], y);
    }
}

/// In values with no two equal ones, `y` is first matched at position `p`
/// exactly when it equals the value there.
pub proof fn lemma_find_index_unique<T: PartialEq>(s: Seq<T>, p: int, y: T)
    requires
        lawful_eq::<T>(),
        no_equal_pair(s),
        0 <= p < s.len(),
    ensures
        (find_index(s, y) == p) <==> y.eq_spec(&s[p]),
{
    lemma_find_index_range(s, y);
    if y.eq_spec(&s[p]) {
        assert forall|i: int| 0 <= i < p implies !y.eq_spec(&s[i]) by {
            if y.eq_spec(&s[i]) {
                lemma_eq_symm(y, s[p]);
                lemma_eq_trans(s[p], y, s[i]);
            }
        }
        lemma_find_index(s, y, p);
    }
}

/// A handle `h` that an interner gave out for `x`, and a later `intern(y)` on
/// the same interner, with any interning in between: the later call lands on
/// `h`'s position, and so returns a handle equal to `h`, exactly when `x`
/// equals `y`.
pub proof fn lemma_handle_consistency<T: Eq>(s: &Interner<T>, h: Intern, x: T, y: T)
    requires
        lawful_eq::<T>(),
        s.wf(),
        s.is_valid(h),
        s@[s.index_of(h)] == x || x.eq_spec(&s@[s.index_of(h)]),
    ensures
        (find_index(s@, y) == s.index_of(h)) <==> x.eq_spec(&y),
{
    let p = s.index_of(h);
    s.lemma_valid_index(h);
    let v = s@[p];
    lemma_eq_refl(x);
    assert(x.eq_spec(&v));
    lemma_find_index_unique(s@, p, y);
    if y.eq_spec(&v) {
        lemma_eq_symm(y, v);
        lemma_eq_trans(x, v, y);
    }
    if x.eq_spec(&y) {
        lemma_eq_symm(x, y);
        lemma_eq_trans(y, x, v);
    }
}

/// Interning the inputs one by one: the values stored after one more input
/// are those after the earlier inputs, interned with the new one.
pub proof fn lemma_interned_all_push<T: PartialEq>(xs: Seq<T>, x: T)
    ensures
        interned_all(Seq::empty(), xs.push(x)) == interned(interned_all(Seq::empty(), xs), x),
{
    assert(xs.push(x).drop_last() =~= xs);
}

} // verus!
