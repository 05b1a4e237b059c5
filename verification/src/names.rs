//! Sets of domain names, kept in byte-wise lexicographic order.
//!
//! A name goes into a set in its lower-case form, or as it is written where the caller
//! says so.

use crate::text::{copy_range, lowered, same_bytes, to_lower, views};
use vstd::prelude::*;

verus! {

/// `a` comes before `b` in byte-wise lexicographic order.
pub open spec fn lex_less(a: Seq<u8>, b: Seq<u8>) -> bool
    decreases a.len(),
{
    if b.len() == 0 {
        false
    } else if a.len() == 0 {
        true
    } else if a[0] != b[0] {
        a[0] < b[0]
    } else {
        lex_less(a.drop_first(), b.drop_first())
    }
}

/// Each name comes before every later one, so none stands twice.
pub open spec fn strictly_sorted(l: Seq<Seq<u8>>) -> bool {
    forall|i: int, j: int| 0 <= i < j < l.len() ==> lex_less(#[trigger] l[i], #[trigger] l[j])
}

/// Every name is its own lower-case form.
pub open spec fn all_lower(l: Seq<Seq<u8>>) -> bool {
    forall|i: int| 0 <= i < l.len() ==> lowered(#[trigger] l[i]) == l[i]
}

/// A list that stands for a set of names: in lower case, sorted, without repeats.
pub open spec fn is_name_list(l: Seq<Seq<u8>>) -> bool {
    strictly_sorted(l) && all_lower(l)
}

/// No text comes before itself.
pub proof fn lemma_lex_irreflexive(a: Seq<u8>)
    ensures
        !lex_less(a, a),
    decreases a.len(),
{
    if a.len() > 0 {
        lemma_lex_irreflexive(a.drop_first());
    }
}

/// What comes before a text comes before all that the text comes before.
pub proof fn lemma_lex_transitive(a: Seq<u8>, b: Seq<u8>, c: Seq<u8>)
    requires
        lex_less(a, b),
        lex_less(b, c),
    ensures
        lex_less(a, c),
    decreases a.len(),
{
    if a.len() > 0 && a[0] == b[0] && b[0] == c[0] {
        lemma_lex_transitive(a.drop_first(), b.drop_first(), c.drop_first());
    }
}

/// Of two texts that differ, one comes before the other.
pub proof fn lemma_lex_total(a: Seq<u8>, b: Seq<u8>)
    ensures
        lex_less(a, b) || a == b || lex_less(b, a),
    decreases a.len(),
{
    if a.len() == 0 || b.len() == 0 {
        if a.len() == 0 && b.len() == 0 {
            assert(a =~= b);
        }
    } else if a[0] == b[0] {
        lemma_lex_total(a.drop_first(), b.drop_first());
        if a.drop_first() == b.drop_first() {
            assert(a =~= seq![a[0]] + a.drop_first());
            assert(b =~= seq![b[0]] + b.drop_first());
        }
    }
}

/// Tells whether `a` comes before `b` in byte-wise lexicographic order.
pub fn less(a: &[u8], b: &[u8]) -> (r: bool)
    ensures
        r == lex_less(a@, b@),
{
    let mut i: usize = 0;
    assert(a@.skip(0) =~= a@);
    assert(b@.skip(0) =~= b@);
    loop
        invariant
            i <= a.len(),
            i <= b.len(),
            lex_less(a@, b@) == lex_less(a@.skip(i as int), b@.skip(i as int)),
        decreases a.len() - i,
    {
        if i >= b.len() {
            return false;
        }
        if i >= a.len() {
            return true;
        }
        if a[i] != b[i] {
            return a[i] < b[i];
        }
        assert(a@.skip(i as int).drop_first() =~= a@.skip(i + 1));
        assert(b@.skip(i as int).drop_first() =~= b@.skip(i + 1));
        i += 1;
    }
}

/// The number of names at the head of `l` that come before `x`.
pub open spec fn lower_bound(l: Seq<Seq<u8>>, x: Seq<u8>) -> int
    decreases l.len(),
{
    if l.len() == 0 || !lex_less(l[0], x) {
        0
    } else {
        1 + lower_bound(l.drop_first(), x)
    }
}

/// The list `l` with `x` in its place of the order, unless `x` is in it already.
pub open spec fn with_name(l: Seq<Seq<u8>>, x: Seq<u8>) -> Seq<Seq<u8>> {
    if l.contains(x) {
        l
    } else {
        l.insert(lower_bound(l, x), x)
    }
}

/// The set of the lower-case forms of `items`, as a list in order.
pub open spec fn name_list(items: Seq<Seq<u8>>) -> Seq<Seq<u8>>
    decreases items.len(),
{
    if items.len() == 0 {
        Seq::empty()
    } else {
        with_name(name_list(items.drop_last()), lowered(items.last()))
    }
}

/// The names of `a` that are not in `b`, in the order of `a`.
pub open spec fn kept(a: Seq<Seq<u8>>, b: Seq<Seq<u8>>) -> Seq<Seq<u8>>
    decreases a.len(),
{
    if a.len() == 0 {
        a
    } else if b.contains(a.last()) {
        kept(a.drop_last(), b)
    } else {
        kept(a.drop_last(), b).push(a.last())
    }
}

/// The list `a` with every name of `b` put in its place.
pub open spec fn merged(a: Seq<Seq<u8>>, b: Seq<Seq<u8>>) -> Seq<Seq<u8>>
    decreases b.len(),
{
    if b.len() == 0 {
        a
    } else {
        with_name(merged(a, b.drop_last()), b.last())
    }
}

/// The lower bound of `x` lies behind the names that come before `x`, and not behind
/// any other.
pub proof fn lemma_lower_bound(l: Seq<Seq<u8>>, x: Seq<u8>)
    ensures
        0 <= lower_bound(l, x) <= l.len(),
        forall|k: int| 0 <= k < lower_bound(l, x) ==> lex_less(#[trigger] l[k], x),
        lower_bound(l, x) < l.len() ==> !lex_less(l[lower_bound(l, x)], x),
    decreases l.len(),
{
    if l.len() == 0 || !lex_less(l[0], x) {
    } else {
        let rest = l.drop_first();
        lemma_lower_bound(rest, x);
        assert forall|k: int| 0 <= k < lower_bound(l, x) implies lex_less(#[trigger] l[k], x) by {
            if k > 0 {
                assert(l[k] == rest[k - 1]);
            }
        }
        if lower_bound(l, x) < l.len() {
            assert(l[lower_bound(l, x)] == rest[lower_bound(rest, x)]);
        }
    }
}

/// In a sorted list a name is found, if anywhere, at its lower bound.
pub proof fn lemma_found_at_lower_bound(l: Seq<Seq<u8>>, x: Seq<u8>)
    requires
        strictly_sorted(l),
    ensures
        l.contains(x) <==> (lower_bound(l, x) < l.len() && l[lower_bound(l, x)] == x),
{
    let i = lower_bound(l, x);
    lemma_lower_bound(l, x);
    lemma_lex_irreflexive(x);
    if l.contains(x) {
        let k = choose|k: int| 0 <= k < l.len() && l[k] == x;
        if k > i {
            lemma_lex_total(l[i], x);
            if l[i] != x {
                lemma_lex_transitive(x, l[i], l[k]);
            }
        }
    }
}

/// Putting a name into a set gives a set that holds that name and what was there.
pub proof fn lemma_with_name(l: Seq<Seq<u8>>, x: Seq<u8>)
    requires
        strictly_sorted(l),
    ensures
        strictly_sorted(with_name(l, x)),
        forall|d: Seq<u8>| with_name(l, x).contains(d) <==> (l.contains(d) || d == x),
        with_name(l, x).len() == l.len() + (if l.contains(x) {
            0int
        } else {
            1int
        }),
        all_lower(l) && lowered(x) == x ==> all_lower(with_name(l, x)),
{
    let i = lower_bound(l, x);
    lemma_lower_bound(l, x);
    lemma_found_at_lower_bound(l, x);
    if !l.contains(x) {
        let after = l.insert(i, x);
        assert forall|a: int, b: int| 0 <= a < b < after.len() implies lex_less(
            #[trigger] after[a],
            #[trigger] after[b],
        ) by {
            if b < i {
            } else if b == i {
            } else if a == i {
                lemma_lex_total(l[i], x);
                if b - 1 > i {
                    lemma_lex_transitive(x, l[i], l[b - 1]);
                }
            } else if a < i {
                assert(after[b] == l[b - 1]);
            } else {
                assert(after[a] == l[a - 1]);
                assert(after[b] == l[b - 1]);
            }
        }
        assert forall|d: Seq<u8>| after.contains(d) <==> (l.contains(d) || d == x) by {
            if after.contains(d) {
                let k = choose|k: int| 0 <= k < after.len() && after[k] == d;
                if k < i {
                    assert(l[k] == d);
                } else if k > i {
                    assert(l[k - 1] == d);
                }
            }
            if l.contains(d) {
                let k = choose|k: int| 0 <= k < l.len() && l[k] == d;
                if k < i {
                    assert(after[k] == d);
                } else {
                    assert(after[k + 1] == d);
                }
            }
            if d == x {
                assert(after[i] == d);
            }
        }
        if all_lower(l) && lowered(x) == x {
            assert forall|k: int| 0 <= k < after.len() implies lowered(#[trigger] after[k])
                == after[k] by {
                if k < i {
                } else if k > i {
                    assert(after[k] == l[k - 1]);
                }
            }
        }
    }
}

/// A name that comes after every name of a set goes to its end.
pub proof fn lemma_with_name_last(l: Seq<Seq<u8>>, x: Seq<u8>)
    requires
        forall|k: int| 0 <= k < l.len() ==> lex_less(#[trigger] l[k], x),
    ensures
        with_name(l, x) == l.push(x),
    decreases l.len(),
{
    lemma_lex_irreflexive(x);
    lemma_lower_bound(l, x);
    if l.contains(x) {
        let k = choose|k: int| 0 <= k < l.len() && l[k] == x;
        assert(lex_less(l[k], x));
    }
    assert(l.insert(l.len() as int, x) =~= l.push(x));
}

/// The list of a set of names is in order, without repeats, and holds just the
/// lower-case forms.
pub proof fn lemma_name_list(items: Seq<Seq<u8>>)
    ensures
        strictly_sorted(name_list(items)),
        forall|d: Seq<u8>|
            name_list(items).contains(d) <==> exists|i: int|
                0 <= i < items.len() && d == lowered(#[trigger] items[i]),
    decreases items.len(),
{
    if items.len() > 0 {
        let front = items.drop_last();
        lemma_name_list(front);
        lemma_with_name(name_list(front), lowered(items.last()));
        assert forall|d: Seq<u8>| name_list(items).contains(d) <==> exists|i: int|
            0 <= i < items.len() && d == lowered(#[trigger] items[i]) by {
            if name_list(items).contains(d) {
                if name_list(front).contains(d) {
                    let i = choose|i: int| 0 <= i < front.len() && d == lowered(#[trigger] front[i]);
                    assert(items[i] == front[i]);
                    assert(0 <= i < items.len() && d == lowered(items[i]));
                } else {
                    let i = items.len() - 1;
                    assert(0 <= i < items.len() && d == lowered(items[i]));
                }
            }
            if exists|i: int| 0 <= i < items.len() && d == lowered(#[trigger] items[i]) {
                let i = choose|i: int| 0 <= i < items.len() && d == lowered(#[trigger] items[i]);
                if i < front.len() {
                    assert(items[i] == front[i]);
                    assert(0 <= i < front.len() && d == lowered(front[i]));
                    assert(name_list(front).contains(d));
                } else {
                    assert(d == lowered(items.last()));
                }
                assert(name_list(items).contains(d));
            }
        }
    } else {
        assert forall|d: Seq<u8>| !name_list(items).contains(d) by {}
    }
}

/// Taking names away from a set leaves a set, and just the names that were not taken.
pub proof fn lemma_kept(a: Seq<Seq<u8>>, b: Seq<Seq<u8>>)
    requires
        strictly_sorted(a),
    ensures
        strictly_sorted(kept(a, b)),
        all_lower(a) ==> all_lower(kept(a, b)),
        kept(a, b).len() <= a.len(),
        forall|d: Seq<u8>| kept(a, b).contains(d) <==> (a.contains(d) && !b.contains(d)),
        kept(a, b).len() == a.len() <==> forall|d: Seq<u8>| a.contains(d) ==> !b.contains(d),
    decreases a.len(),
{
    if a.len() > 0 {
        let front = a.drop_last();
        let x = a.last();
        lemma_kept(front, b);
        let k = kept(front, b);
        assert forall|d: Seq<u8>| a.contains(d) <==> (front.contains(d) || d == x) by {
            assert(a =~= front.push(x));
            lemma_push_contains(front, x, d);
        }
        assert(a.contains(x));
        if !b.contains(x) {
            assert forall|d: Seq<u8>| k.push(x).contains(d) <==> (k.contains(d) || d == x) by {
                lemma_push_contains(k, x, d);
            }
            assert forall|i: int, j: int| 0 <= i < j < k.push(x).len() implies lex_less(
                #[trigger] k.push(x)[i],
                #[trigger] k.push(x)[j],
            ) by {
                if j == k.len() {
                    let d = k[i];
                    assert(k.contains(d));
                    assert(front.contains(d));
                    let m = choose|m: int| 0 <= m < front.len() && front[m] == d;
                    assert(a[m] == front[m]);
                    assert(lex_less(a[m], a[a.len() - 1]));
                } else {
                    assert(k.push(x)[i] == k[i]);
                    assert(k.push(x)[j] == k[j]);
                }
            }
            if all_lower(a) {
                assert forall|i: int| 0 <= i < front.len() implies lowered(#[trigger] front[i])
                    == front[i] by {
                    assert(front[i] == a[i]);
                }
                assert forall|i: int| 0 <= i < k.push(x).len() implies lowered(
                    #[trigger] k.push(x)[i],
                ) == k.push(x)[i] by {
                    if i == k.len() {
                        assert(lowered(a[a.len() - 1]) == a[a.len() - 1]);
                    }
                }
            }
        } else if all_lower(a) {
            assert forall|i: int| 0 <= i < front.len() implies lowered(#[trigger] front[i])
                == front[i] by {
                assert(front[i] == a[i]);
            }
        }
        if kept(a, b).len() == a.len() {
            assert forall|d: Seq<u8>| a.contains(d) implies !b.contains(d) by {}
        }
    } else {
        assert forall|d: Seq<u8>| !a.contains(d) by {}
    }
}

/// Merging two sets gives a set that holds the names of both.
pub proof fn lemma_merged(a: Seq<Seq<u8>>, b: Seq<Seq<u8>>)
    requires
        strictly_sorted(a),
    ensures
        strictly_sorted(merged(a, b)),
        forall|d: Seq<u8>| merged(a, b).contains(d) <==> (a.contains(d) || b.contains(d)),
    decreases b.len(),
{
    if b.len() > 0 {
        let front = b.drop_last();
        let x = b.last();
        lemma_merged(a, front);
        lemma_with_name(merged(a, front), x);
        assert(b =~= front.push(x));
        assert forall|d: Seq<u8>| merged(a, b).contains(d) <==> (a.contains(d) || b.contains(
            d,
        )) by {
            lemma_push_contains(front, x, d);
        }
    } else {
        assert forall|d: Seq<u8>| !b.contains(d) by {}
    }
}

/// A set of domain names.
pub struct DomainSet {
    names: Vec<Vec<u8>>,
}

impl View for DomainSet {
    type V = Seq<Seq<u8>>;

    /// The names, in order.
    closed spec fn view(&self) -> Seq<Seq<u8>> {
        views(self.names@)
    }
}

impl DomainSet {
    /// What every set made by this module satisfies: the names stand in order, and
    /// none stands twice.
    pub open spec fn wf(&self) -> bool {
        strictly_sorted(self@)
    }

    /// The empty set.
    pub fn new() -> (r: DomainSet)
        ensures
            r.wf(),
            r@ == Seq::<Seq<u8>>::empty(),
    {
        let r = DomainSet { names: Vec::new() };
        assert(r@ =~= Seq::<Seq<u8>>::empty());
        r
    }

    /// The number of names.
    pub fn len(&self) -> (n: usize)
        ensures
            n == self@.len(),
    {
        self.names.len()
    }

    /// Tells whether the set holds no name.
    pub fn is_empty(&self) -> (r: bool)
        ensures
            r == (self@.len() == 0),
    {
        self.names.len() == 0
    }

    /// The name at place `i` of the order.
    pub fn get(&self, i: usize) -> (r: &[u8])
        requires
            i < self@.len(),
        ensures
            r@ == self@[i as int],
    {
        self.names[i].as_slice()
    }

    /// The names, in order.
    pub fn as_list(&self) -> (r: &Vec<Vec<u8>>)
        ensures
            views(r@) == self@,
    {
        &self.names
    }

    /// A copy of the names, in order.
    pub fn to_vec(&self) -> (r: Vec<Vec<u8>>)
        ensures
            views(r@) == self@,
    {
        let mut out: Vec<Vec<u8>> = Vec::new();
        let mut i: usize = 0;
        while i < self.names.len()
            invariant
                i <= self.names.len(),
                views(out@) == self@.take(i as int),
            decreases self.names.len() - i,
        {
            let name = copy_range(self.names[i].as_slice(), 0, self.names[i].len());
            assert(name@ =~= self.names[i as int]@);
            let ghost before = views(out@);
            out.push(name);
            assert(views(out@) =~= before.push(name@));
            assert(self@.take(i as int).push(name@) =~= self@.take(i + 1));
            i += 1;
        }
        assert(self@.take(self.names.len() as int) =~= self@);
        out
    }

    /// The place of the first name that does not come before `name`.
    fn place_of(&self, name: &[u8]) -> (i: usize)
        ensures
            i == lower_bound(self@, name@),
            i <= self@.len(),
    {
        let mut i: usize = 0;
        assert(self@.skip(0) =~= self@);
        while i < self.names.len() && less(self.names[i].as_slice(), name)
            invariant
                i <= self.names.len(),
                lower_bound(self@, name@) == i + lower_bound(self@.skip(i as int), name@),
            decreases self.names.len() - i,
        {
            assert(self@.skip(i as int).drop_first() =~= self@.skip(i + 1));
            assert(self@.skip(i as int)[0] == self@[i as int]);
            i += 1;
        }
        proof {
            if i < self.names.len() {
                assert(self@.skip(i as int)[0] == self@[i as int]);
            }
        }
        i
    }

    /// Tells whether `name`, as it is written, is in the set.
    pub fn contains(&self, name: &[u8]) -> (r: bool)
        requires
            self.wf(),
        ensures
            r == self@.contains(name@),
    {
        let i: usize = self.place_of(name);
        proof {
            lemma_found_at_lower_bound(self@, name@);
        }
        i < self.names.len() && same_bytes(self.names[i].as_slice(), name)
    }

    /// Puts the lower-case form of `name` into the set. Tells whether it was new.
    pub fn insert(&mut self, name: &[u8]) -> (added: bool)
        requires
            old(self).wf(),
        ensures
            final(self).wf(),
            final(self)@ == with_name(old(self)@, lowered(name@)),
            added == !old(self)@.contains(lowered(name@)),
    {
        self.insert_as_written(to_lower(name))
    }

    /// Puts `name` into the set as it is written. Tells whether it was new.
    pub fn insert_as_written(&mut self, name: Vec<u8>) -> (added: bool)
        requires
            old(self).wf(),
        ensures
            final(self).wf(),
            final(self)@ == with_name(old(self)@, name@),
            added == !old(self)@.contains(name@),
    {
        let i: usize = self.place_of(name.as_slice());
        proof {
            lemma_found_at_lower_bound(self@, name@);
            lemma_with_name(self@, name@);
        }
        if i < self.names.len() && same_bytes(self.names[i].as_slice(), name.as_slice()) {
            return false;
        }
        let ghost before = self@;
        self.names.insert(i, name);
        assert(self@ =~= before.insert(i as int, name@));
        true
    }

    /// The set of the lower-case forms of `names`.
    pub fn from_names(names: &Vec<Vec<u8>>) -> (r: DomainSet)
        ensures
            r.wf(),
            r@ == name_list(views(names@)),
    {
        let mut out = DomainSet::new();
        let mut i: usize = 0;
        assert(views(names@).take(0) =~= Seq::<Seq<u8>>::empty());
        while i < names.len()
            invariant
                i <= names.len(),
                out.wf(),
                out@ == name_list(views(names@).take(i as int)),
            decreases names.len() - i,
        {
            out.insert(names[i].as_slice());
            proof {
                let upto = views(names@).take(i + 1);
                assert(upto.drop_last() =~= views(names@).take(i as int));
                assert(upto.last() == names@[i as int]@);
            }
            i += 1;
        }
        assert(views(names@).take(names.len() as int) =~= views(names@));
        out
    }

    /// The names of `self` that are not in `other`.
    pub fn without(&self, other: &DomainSet) -> (r: DomainSet)
        requires
            self.wf(),
            other.wf(),
        ensures
            r.wf(),
            r@ == kept(self@, other@),
    {
        let mut out: Vec<Vec<u8>> = Vec::new();
        let mut i: usize = 0;
        assert(self@.take(0) =~= Seq::<Seq<u8>>::empty());
        assert(views(out@) =~= Seq::<Seq<u8>>::empty());
        while i < self.names.len()
            invariant
                i <= self.names.len(),
                other.wf(),
                views(out@) == kept(self@.take(i as int), other@),
            decreases self.names.len() - i,
        {
            let name = self.names[i].as_slice();
            proof {
                let upto = self@.take(i + 1);
                assert(upto.drop_last() =~= self@.take(i as int));
                assert(upto.last() == name@);
            }
            if !other.contains(name) {
                let copy = copy_range(name, 0, name.len());
                assert(copy@ =~= name@);
                let ghost before = views(out@);
                out.push(copy);
                assert(views(out@) =~= before.push(name@));
            }
            i += 1;
        }
        assert(self@.take(self.names.len() as int) =~= self@);
        proof {
            lemma_kept(self@, other@);
        }
        DomainSet { names: out }
    }

    /// Puts every name of `other` into the set.
    pub fn absorb(&mut self, other: &DomainSet)
        requires
            old(self).wf(),
            other.wf(),
        ensures
            final(self).wf(),
            final(self)@ == merged(old(self)@, other@),
    {
        let mut i: usize = 0;
        assert(other@.take(0) =~= Seq::<Seq<u8>>::empty());
        while i < other.names.len()
            invariant
                i <= other.names.len(),
                other.wf(),
                self.wf(),
                self@ == merged(old(self)@, other@.take(i as int)),
            decreases other.names.len() - i,
        {
            let name = other.names[i].as_slice();
            proof {
                let upto = other@.take(i + 1);
                assert(upto.drop_last() =~= other@.take(i as int));
                assert(upto.last() == name@);
                assert(name@ == other@[i as int]);
            }
            let copy = copy_range(name, 0, name.len());
            assert(copy@ =~= name@);
            self.insert_as_written(copy);
            i += 1;
        }
        assert(other@.take(other.names.len() as int) =~= other@);
    }
}

/// What a list holds after a push.
pub proof fn lemma_push_contains(l: Seq<Seq<u8>>, x: Seq<u8>, d: Seq<u8>)
    ensures
        l.push(x).contains(d) <==> (l.contains(d) || d == x),
{
    let p = l.push(x);
    if p.contains(d) {
        let k = choose|k: int| 0 <= k < p.len() && p[k] == d;
        if k < l.len() {
            assert(l[k] == d);
        }
    }
    if l.contains(d) {
        let k = choose|k: int| 0 <= k < l.len() && l[k] == d;
        assert(p[k] == d);
    }
    if d == x {
        assert(p[l.len() as int] == d);
    }
}

} // verus!
