use vstd::prelude::*;
use std::cmp::Ordering;
use crate::models::{Print, PrintView, Unit, UnitView, prints_view, units_view};
use crate::order::{compare_names, lemma_lex_cmp_flip, lemma_name_order_flip, lex_cmp, name_order, print_sort};

verus! {

/// `le` is total: of two values, at least one is at most the other.
pub open spec fn total<A>(le: spec_fn(A, A) -> bool) -> bool {
    forall|a: A, b: A| #[trigger] le(a, b) || le(b, a)
}

/// Each element is at most the next one.
pub open spec fn sorted_by<A>(s: Seq<A>, le: spec_fn(A, A) -> bool) -> bool {
    forall|i: int| 0 <= i < s.len() - 1 ==> le(#[trigger] s[i], s[i + 1])
}

/// Where `x` goes when it is appended and moved back past every element
/// greater than it.
pub open spec fn insert_pos<A>(s: Seq<A>, x: A, le: spec_fn(A, A) -> bool) -> int
    decreases s.len(),
{
    if s.len() == 0 {
        0
    } else if le(s.last(), x) {
        s.len() as int
    } else {
        insert_pos(s.drop_last(), x, le)
    }
}

/// `s` with `x` inserted at its place.
pub open spec fn insert_sorted<A>(s: Seq<A>, x: A, le: spec_fn(A, A) -> bool) -> Seq<A> {
    s.insert(insert_pos(s, x, le), x)
}

/// Stable insertion sort of `s` by `le`.
pub open spec fn sort_by<A>(s: Seq<A>, le: spec_fn(A, A) -> bool) -> Seq<A>
    decreases s.len(),
{
    if s.len() == 0 {
        s
    } else {
        insert_sorted(sort_by(s.drop_last(), le), s.last(), le)
    }
}

/// Units in order of name.
pub open spec fn unit_le() -> spec_fn(UnitView, UnitView) -> bool {
    |a: UnitView, b: UnitView| lex_cmp(a.0, b.0) != Ordering::Greater
}

/// Prints in print order of name.
pub open spec fn print_le() -> spec_fn(PrintView, PrintView) -> bool {
    |a: PrintView, b: PrintView| name_order(a.0, b.0) != Ordering::Greater
}

pub proof fn lemma_unit_le_total()
    ensures
        total(unit_le()),
{
    assert forall|a: UnitView, b: UnitView| #[trigger] unit_le()(a, b) || unit_le()(b, a) by {
        lemma_lex_cmp_flip(a.0, b.0);
    }
}

pub proof fn lemma_print_le_total()
    ensures
        total(print_le()),
{
    assert forall|a: PrintView, b: PrintView| #[trigger] print_le()(a, b) || print_le()(b, a) by {
        lemma_name_order_flip(a.0, b.0);
    }
}

/// At the place of `x`, the element before it is at most `x`, and the element
/// after it is not.
pub proof fn lemma_insert_pos<A>(s: Seq<A>, x: A, le: spec_fn(A, A) -> bool)
    ensures
        0 <= insert_pos(s, x, le) <= s.len(),
        insert_pos(s, x, le) > 0 ==> le(s[insert_pos(s, x, le) - 1], x),
        insert_pos(s, x, le) < s.len() ==> !le(s[insert_pos(s, x, le)], x),
    decreases s.len(),
{
    if s.len() > 0 && !le(s.last(), x) {
        lemma_insert_pos(s.drop_last(), x, le);
    }
}

/// Inserting at its place keeps a sequence sorted.
pub proof fn lemma_insert_keeps_sorted<A>(s: Seq<A>, x: A, le: spec_fn(A, A) -> bool)
    requires
        total(le),
        sorted_by(s, le),
    ensures
        sorted_by(insert_sorted(s, x, le), le),
{
    lemma_insert_pos(s, x, le);
    let p = insert_pos(s, x, le);
    let t = insert_sorted(s, x, le);
    assert forall|i: int| 0 <= i < t.len() - 1 implies le(#[trigger] t[i], t[i + 1]) by {
        if i + 1 < p {
            assert(le(s[i], s[i + 1]));
        } else if i + 1 == p {
        } else if i == p {
            assert(le(x, s[p]) || le(s[p], x));
        } else {
            assert(le(s[i - 1], s[i]));
        }
    }
}

/// Sorting yields a sorted sequence.
pub proof fn lemma_sort_sorted<A>(s: Seq<A>, le: spec_fn(A, A) -> bool)
    requires
        total(le),
    ensures
        sorted_by(sort_by(s, le), le),
        sort_by(s, le).len() == s.len(),
    decreases s.len(),
{
    if s.len() > 0 {
        lemma_sort_sorted(s.drop_last(), le);
        lemma_insert_keeps_sorted(sort_by(s.drop_last(), le), s.last(), le);
        lemma_insert_pos(sort_by(s.drop_last(), le), s.last(), le);
    }
}

/// Sorting a sorted sequence leaves it as it is.
pub proof fn lemma_sort_of_sorted<A>(s: Seq<A>, le: spec_fn(A, A) -> bool)
    requires
        sorted_by(s, le),
    ensures
        sort_by(s, le) == s,
    decreases s.len(),
{
    if s.len() > 0 {
        let d = s.drop_last();
        assert(sorted_by(d, le)) by {
            assert forall|i: int| 0 <= i < d.len() - 1 implies le(#[trigger] d[i], d[i + 1]) by {
                assert(le(s[i], s[i + 1]));
            }
        }
        lemma_sort_of_sorted(d, le);
        if d.len() > 0 {
            assert(le(s[d.len() - 1], s[d.len() as int]));
        }
        assert(insert_pos(d, s.last(), le) == d.len());
        assert(d.insert(d.len() as int, s.last()) =~= s);
    }
}

/// Sorting twice gives what sorting once gives.
pub proof fn lemma_sort_idempotent<A>(s: Seq<A>, le: spec_fn(A, A) -> bool)
    requires
        total(le),
    ensures
        sort_by(sort_by(s, le), le) == sort_by(s, le),
{
    lemma_sort_sorted(s, le);
    lemma_sort_of_sorted(sort_by(s, le), le);
}

/// Sorting a list of units, or of prints, twice gives what sorting once gives.
pub proof fn lemma_sorting_idempotent(units: Seq<UnitView>, prints: Seq<PrintView>)
    ensures
        sort_by(sort_by(units, unit_le()), unit_le()) == sort_by(units, unit_le()),
        sort_by(sort_by(prints, print_le()), print_le()) == sort_by(prints, print_le()),
{
    lemma_unit_le_total();
    lemma_print_le_total();
    lemma_sort_idempotent(units, unit_le());
    lemma_sort_idempotent(prints, print_le());
}

/// No two elements have the same key.
pub open spec fn distinct_keys<A>(s: Seq<A>, key: spec_fn(A) -> Seq<char>) -> bool {
    forall|i: int, j: int| 0 <= i < s.len() && 0 <= j < s.len() && i != j ==> key(s[i]) != key(s[j])
}

/// Sorting keeps exactly the elements of the input, each as often as it occurs.
pub proof fn lemma_sort_permutes<A>(s: Seq<A>, le: spec_fn(A, A) -> bool)
    ensures
        sort_by(s, le).to_multiset() == s.to_multiset(),
    decreases s.len(),
{
    broadcast use vstd::seq_lib::group_to_multiset_ensures, vstd::multiset::group_multiset_axioms;

    if s.len() > 0 {
        let d = s.drop_last();
        let x = s.last();
        let t = sort_by(d, le);
        lemma_sort_permutes(d, le);
        lemma_insert_pos(t, x, le);
        let p = insert_pos(t, x, le);
        let u = t.insert(p, x);
        assert(u.remove(p) =~= t);
        assert(u[p] == x);
        assert(u.to_multiset().count(x) > 0) by {
            assert(u.contains(x));
        }
        assert(u.to_multiset() =~= t.to_multiset().insert(x));
        assert(d.push(x) =~= s);
    }
}

/// Every element of the sorted sequence is an element of the input.
pub proof fn lemma_sort_members<A>(s: Seq<A>, le: spec_fn(A, A) -> bool)
    ensures
        sort_by(s, le).len() == s.len(),
        forall|i: int| 0 <= i < s.len() ==> s.contains(#[trigger] sort_by(s, le)[i]),
    decreases s.len(),
{
    if s.len() > 0 {
        let d = s.drop_last();
        let t = sort_by(d, le);
        lemma_sort_members(d, le);
        lemma_insert_pos(t, s.last(), le);
        let p = insert_pos(t, s.last(), le);
        assert forall|i: int| 0 <= i < s.len() implies s.contains(#[trigger] sort_by(s, le)[i]) by {
            if i < p {
                assert(d.contains(t[i]));
                let j = choose|j: int| 0 <= j < d.len() && d[j] == t[i];
                assert(s[j] == t[i]);
            } else if i == p {
                assert(s[s.len() - 1] == s.last());
            } else {
                assert(d.contains(t[i - 1]));
                let j = choose|j: int| 0 <= j < d.len() && d[j] == t[i - 1];
                assert(s[j] == t[i - 1]);
            }
        }
    }
}

/// Sorting keeps the keys of the elements distinct.
pub proof fn lemma_sort_keeps_distinct<A>(
    s: Seq<A>,
    le: spec_fn(A, A) -> bool,
    key: spec_fn(A) -> Seq<char>,
)
    requires
        distinct_keys(s, key),
    ensures
        distinct_keys(sort_by(s, le), key),
    decreases s.len(),
{
    if s.len() > 0 {
        let d = s.drop_last();
        let x = s.last();
        let t = sort_by(d, le);
        lemma_sort_keeps_distinct(d, le, key);
        lemma_sort_members(d, le);
        lemma_insert_pos(t, x, le);
        let p = insert_pos(t, x, le);
        assert forall|i: int| 0 <= i < t.len() implies key(#[trigger] t[i]) != key(x) by {
            assert(d.contains(t[i]));
            let j = choose|j: int| 0 <= j < d.len() && d[j] == t[i];
            assert(s[j] == t[i]);
            assert(s[s.len() - 1] == x);
        }
        let u = insert_sorted(t, x, le);
        assert forall|i: int, j: int|
            0 <= i < u.len() && 0 <= j < u.len() && i != j implies key(u[i]) != key(u[j]) by {
            if i != p && j != p {
                let i2 = if i < p { i } else { i - 1 };
                let j2 = if j < p { j } else { j - 1 };
                assert(u[i] == t[i2] && u[j] == t[j2]);
            } else if i == p {
                let j2 = if j < p { j } else { j - 1 };
                assert(u[j] == t[j2]);
            } else {
                let i2 = if i < p { i } else { i - 1 };
                assert(u[i] == t[i2]);
            }
        }
    }
}

/// Inserts a print at its place in print order: after the elements that are at
/// most it, before those that are greater.
pub fn insert_print(prints: &mut Vec<Print>, p: Print)
    ensures
        prints_view(final(prints)@) == insert_sorted(prints_view(old(prints)@), p@, print_le()),
{
    let ghost s = prints_view(prints@);
    let mut j: usize = prints.len();
    let mut placed = false;
    assert(s.subrange(0, j as int) =~= s);
    while j > 0 && !placed
        invariant
            0 <= j <= prints.len(),
            prints_view(prints@) == s,
            s.len() == prints.len(),
            placed ==> j > 0 && print_le()(s[j - 1], p@),
            insert_pos(s, p@, print_le()) == insert_pos(s.subrange(0, j as int), p@, print_le()),
        decreases 2 * j + if placed { 0int } else { 1int },
    {
        let o = print_sort(&prints[j - 1], &p);
        assert(s.subrange(0, j as int).drop_last() =~= s.subrange(0, j - 1));
        match o {
            Ordering::Greater => {
                j = j - 1;
            },
            _ => {
                placed = true;
            },
        }
    }
    proof {
        if placed {
            assert(s.subrange(0, j as int).last() == s[j - 1]);
        }
    }
    prints.insert(j, p);
    assert(prints_view(prints@) =~= s.insert(j as int, p@));
}

/// Inserts a unit at its place in order of name: after the units whose names
/// are at most its own, before the others.
pub fn insert_unit(units: &mut Vec<Unit>, u: Unit)
    ensures
        units_view(final(units)@) == insert_sorted(units_view(old(units)@), u@, unit_le()),
{
    let ghost s = units_view(units@);
    let mut j: usize = units.len();
    let mut placed = false;
    assert(s.subrange(0, j as int) =~= s);
    while j > 0 && !placed
        invariant
            0 <= j <= units.len(),
            units_view(units@) == s,
            s.len() == units.len(),
            placed ==> j > 0 && unit_le()(s[j - 1], u@),
            insert_pos(s, u@, unit_le()) == insert_pos(s.subrange(0, j as int), u@, unit_le()),
        decreases 2 * j + if placed { 0int } else { 1int },
    {
        let o = compare_names(&units[j - 1].name, &u.name);
        assert(s.subrange(0, j as int).drop_last() =~= s.subrange(0, j - 1));
        match o {
            Ordering::Greater => {
                j = j - 1;
            },
            _ => {
                placed = true;
            },
        }
    }
    proof {
        if placed {
            assert(s.subrange(0, j as int).last() == s[j - 1]);
        }
    }
    units.insert(j, u);
    assert(units_view(units@) =~= s.insert(j as int, u@));
}

/// Sorts prints by name in print order; prints that compare equal keep their
/// order.
pub fn sort_prints(prints: Vec<Print>) -> (r: Vec<Print>)
    ensures
        prints_view(r@) == sort_by(prints_view(prints@), print_le()),
{
    let ghost sv = prints_view(prints@);
    let ghost n = prints@.len();
    let mut rest = prints;
    let mut out: Vec<Print> = Vec::new();
    let ghost mut k: int = 0;
    assert(sv.subrange(0, 0) =~= Seq::<PrintView>::empty());
    assert(prints_view(out@) =~= Seq::<PrintView>::empty());
    while rest.len() > 0
        invariant
            0 <= k <= n,
            sv.len() == n,
            rest.len() == n - k,
            forall|i: int| 0 <= i < rest.len() ==> #[trigger] rest@[i]@ == sv[k + i],
            prints_view(out@) == sort_by(sv.subrange(0, k), print_le()),
        decreases rest.len(),
    {
        let ghost before = rest@;
        let x = rest.remove(0);
        assert(x@ == sv[k]);
        assert(sv.subrange(0, k + 1).drop_last() =~= sv.subrange(0, k));
        insert_print(&mut out, x);
        proof {
            assert forall|i: int| 0 <= i < rest.len() implies #[trigger] rest@[i]@ == sv[k + 1 + i] by {
                assert(rest@[i] == before[i + 1]);
            }
            k = k + 1;
        }
    }
    assert(sv.subrange(0, k) =~= sv);
    out
}

/// Sorts units by name; units of one name keep their order.
pub fn sort_units(units: Vec<Unit>) -> (r: Vec<Unit>)
    ensures
        units_view(r@) == sort_by(units_view(units@), unit_le()),
{
    let ghost sv = units_view(units@);
    let ghost n = units@.len();
    let mut rest = units;
    let mut out: Vec<Unit> = Vec::new();
    let ghost mut k: int = 0;
    assert(sv.subrange(0, 0) =~= Seq::<UnitView>::empty());
    assert(units_view(out@) =~= Seq::<UnitView>::empty());
    while rest.len() > 0
        invariant
            0 <= k <= n,
            sv.len() == n,
            rest.len() == n - k,
            forall|i: int| 0 <= i < rest.len() ==> #[trigger] rest@[i]@ == sv[k + i],
            units_view(out@) == sort_by(sv.subrange(0, k), unit_le()),
        decreases rest.len(),
    {
        let ghost before = rest@;
        let x = rest.remove(0);
        assert(x@ == sv[k]);
        assert(sv.subrange(0, k + 1).drop_last() =~= sv.subrange(0, k));
        insert_unit(&mut out, x);
        proof {
            assert forall|i: int| 0 <= i < rest.len() implies #[trigger] rest@[i]@ == sv[k + 1 + i] by {
                assert(rest@[i] == before[i + 1]);
            }
            k = k + 1;
        }
    }
    assert(sv.subrange(0, k) =~= sv);
    out
}

} // verus!
