//! Lists of names that the user ticks and unticks.
use vstd::prelude::*;
use crate::text::{starts_with, starts_with_exec};

verus! {

/// `list` with `x` added at the end, unless it already holds it.
pub open spec fn push_new(list: Seq<Seq<char>>, x: Seq<char>) -> Seq<Seq<char>> {
    if list.contains(x) {
        list
    } else {
        list.push(x)
    }
}

/// `list` without any entry equal to `x`, the others in order.
pub open spec fn without_entry(list: Seq<Seq<char>>, x: Seq<char>) -> Seq<Seq<char>>
    decreases list.len(),
{
    if list.len() == 0 {
        Seq::empty()
    } else if list.last() == x {
        without_entry(list.drop_last(), x)
    } else {
        without_entry(list.drop_last(), x).push(list.last())
    }
}

/// `list` without the entries that start with `prefix`, the others in order.
pub open spec fn without_prefixed(list: Seq<Seq<char>>, prefix: Seq<char>) -> Seq<Seq<char>>
    decreases list.len(),
{
    if list.len() == 0 {
        Seq::empty()
    } else if starts_with(list.last(), prefix) {
        without_prefixed(list.drop_last(), prefix)
    } else {
        without_prefixed(list.drop_last(), prefix).push(list.last())
    }
}

/// A tick box over `list`: ticking adds `x` once, unticking removes it.
pub open spec fn toggled(list: Seq<Seq<char>>, x: Seq<char>, on: bool) -> Seq<Seq<char>> {
    if on {
        push_new(list, x)
    } else {
        without_entry(list, x)
    }
}

/// Pushes `x` unless `list` holds it.
pub fn push_unique(list: &mut Vec<String>, x: String)
    ensures
        final(list).deep_view() == push_new(old(list).deep_view(), x@),
{
    let mut i: usize = 0;
    while i < list.len()
        invariant
            i <= list.len(),
            forall|k: int| 0 <= k < i ==> list.deep_view()[k] != x@,
        decreases list.len() - i,
    {
        if list[i] == x {
            assert(list.deep_view()[i as int] == x@);
            return;
        }
        i = i + 1;
    }
    let ghost before = list.deep_view();
    assert(!before.contains(x@));
    list.push(x);
    assert(list.deep_view() =~= before.push(x@));
}

/// Removes every entry of `list` equal to `x`.
pub fn remove_entry(list: &mut Vec<String>, x: &String)
    ensures
        final(list).deep_view() == without_entry(old(list).deep_view(), x@),
{
    let ghost orig = list.deep_view();
    let mut kept: Vec<String> = Vec::new();
    let mut i: usize = 0;
    while i < list.len()
        invariant
            i <= list.len(),
            list.deep_view() == orig,
            kept.deep_view() == without_entry(orig.take(i as int), x@),
        decreases list.len() - i,
    {
        assert(orig.take(i + 1).drop_last() =~= orig.take(i as int));
        assert(orig.take(i + 1).last() == list[i as int]@);
        if list[i] != *x {
            let ghost before = kept.deep_view();
            kept.push(list[i].clone());
            assert(kept.deep_view() =~= before.push(list[i as int]@));
        }
        i = i + 1;
    }
    assert(orig.take(i as int) =~= orig);
    *list = kept;
}

/// Removes every entry of `list` that starts with `prefix`.
pub fn remove_prefixed(list: &mut Vec<String>, prefix: &str)
    ensures
        final(list).deep_view() == without_prefixed(old(list).deep_view(), prefix@),
{
    let ghost orig = list.deep_view();
    let mut kept: Vec<String> = Vec::new();
    let mut i: usize = 0;
    while i < list.len()
        invariant
            i <= list.len(),
            list.deep_view() == orig,
            kept.deep_view() == without_prefixed(orig.take(i as int), prefix@),
        decreases list.len() - i,
    {
        assert(orig.take(i + 1).drop_last() =~= orig.take(i as int));
        assert(orig.take(i + 1).last() == list[i as int]@);
        if !starts_with_exec(list[i].as_str(), prefix) {
            let ghost before = kept.deep_view();
            kept.push(list[i].clone());
            assert(kept.deep_view() =~= before.push(list[i as int]@));
        }
        i = i + 1;
    }
    assert(orig.take(i as int) =~= orig);
    *list = kept;
}

/// Ticks (`on`) or unticks `x` in `list`.
pub fn toggle_entry(list: &mut Vec<String>, x: String, on: bool)
    ensures
        final(list).deep_view() == toggled(old(list).deep_view(), x@, on),
{
    if on {
        push_unique(list, x);
    } else {
        remove_entry(list, &x);
    }
}

/// Nothing equal to `x` is left once it is removed.
pub proof fn lemma_without_entry(list: Seq<Seq<char>>, x: Seq<char>)
    ensures
        !without_entry(list, x).contains(x),
        forall|y: Seq<char>| y != x ==> (#[trigger] without_entry(list, x).contains(y) <==> list.contains(y)),
    decreases list.len(),
{
    if list.len() > 0 {
        lemma_without_entry(list.drop_last(), x);
        let r = without_entry(list.drop_last(), x);
        assert forall|y: Seq<char>| y != x implies (#[trigger] without_entry(list, x).contains(y) <==> list.contains(y)) by {
            if list.contains(y) {
                let k = choose|k: int| 0 <= k < list.len() && list[k] == y;
                if k < list.len() - 1 {
                    assert(list.drop_last()[k] == y);
                }
            }
            if list.drop_last().contains(y) {
                let k = choose|k: int| 0 <= k < list.drop_last().len() && list.drop_last()[k] == y;
                assert(list[k] == y);
            }
            if list.last() != x {
                if r.push(list.last()).contains(y) && y != list.last() {
                    let k = choose|k: int| 0 <= k < r.push(list.last()).len() && r.push(list.last())[k] == y;
                    assert(r[k] == y);
                }
                if r.contains(y) {
                    let k = choose|k: int| 0 <= k < r.len() && r[k] == y;
                    assert(r.push(list.last())[k] == y);
                }
                assert(r.push(list.last())[r.len() as int] == list.last());
            }
            assert(list[list.len() - 1] == list.last());
        }
        if list.last() != x {
            if r.push(list.last()).contains(x) {
                let k = choose|k: int| 0 <= k < r.push(list.last()).len() && r.push(list.last())[k] == x;
                assert(k < r.len());
                assert(r[k] == x);
            }
        }
    }
}

/// Removing a name that the list does not hold leaves it as it is.
proof fn lemma_without_absent(list: Seq<Seq<char>>, x: Seq<char>)
    requires
        !list.contains(x),
    ensures
        without_entry(list, x) == list,
    decreases list.len(),
{
    if list.len() > 0 {
        assert(!list.drop_last().contains(x)) by {
            if list.drop_last().contains(x) {
                let k = choose|k: int| 0 <= k < list.drop_last().len() && list.drop_last()[k] == x;
                assert(list[k] == x);
            }
        }
        lemma_without_absent(list.drop_last(), x);
        assert(list[list.len() - 1] != x);
        assert(list.drop_last().push(list.last()) =~= list);
    }
}

/// Ticking a name that was not ticked and then unticking it gives back the
/// list as it was.
pub proof fn lemma_tick_then_untick(list: Seq<Seq<char>>, x: Seq<char>)
    requires
        !list.contains(x),
    ensures
        toggled(toggled(list, x, true), x, false) == list,
{
    assert(list.push(x).drop_last() =~= list);
    lemma_without_absent(list, x);
}

/// Adding a name only when it is absent keeps a list free of repeats.
pub proof fn lemma_push_new_unrepeated(list: Seq<Seq<char>>, x: Seq<char>)
    requires
        list.no_duplicates(),
    ensures
        push_new(list, x).no_duplicates(),
        push_new(list, x).contains(x),
{
    if !list.contains(x) {
        let r = list.push(x);
        assert(r[list.len() as int] == x);
        assert forall|i: int, j: int| 0 <= i < r.len() && 0 <= j < r.len() && i != j implies r[i]
            != r[j] by {
            if i < list.len() && j < list.len() {
                assert(r[i] == list[i] && r[j] == list[j]);
            } else if i < list.len() {
                assert(list.contains(list[i]));
            } else {
                assert(list.contains(list[j]));
            }
        }
    }
}

/// Every entry of `without_entry(list, x)` is an entry of `list`, in order:
/// it keeps a list free of repeats.
proof fn lemma_without_entry_unrepeated(list: Seq<Seq<char>>, x: Seq<char>)
    requires
        list.no_duplicates(),
    ensures
        without_entry(list, x).no_duplicates(),
    decreases list.len(),
{
    if list.len() > 0 {
        let p = list.drop_last();
        assert(p.no_duplicates()) by {
            assert forall|i: int, j: int| 0 <= i < p.len() && 0 <= j < p.len() && i != j implies p[i]
                != p[j] by {
                assert(p[i] == list[i] && p[j] == list[j]);
            }
        }
        lemma_without_entry_unrepeated(p, x);
        if list.last() != x {
            lemma_without_entry(p, x);
            let y = list.last();
            assert(!p.contains(y)) by {
                if p.contains(y) {
                    let k = choose|k: int| 0 <= k < p.len() && p[k] == y;
                    assert(list[k] == list[list.len() - 1]);
                }
            }
            assert(!without_entry(p, x).contains(y));
            lemma_push_new_unrepeated(without_entry(p, x), y);
        }
    }
}

/// Removing the names with a prefix keeps a list free of repeats.
pub proof fn lemma_without_prefixed_unrepeated(list: Seq<Seq<char>>, prefix: Seq<char>)
    requires
        list.no_duplicates(),
    ensures
        without_prefixed(list, prefix).no_duplicates(),
        forall|y: Seq<char>| #[trigger] without_prefixed(list, prefix).contains(y) ==> list.contains(y),
    decreases list.len(),
{
    if list.len() > 0 {
        let p = list.drop_last();
        assert(p.no_duplicates()) by {
            assert forall|i: int, j: int| 0 <= i < p.len() && 0 <= j < p.len() && i != j implies p[i]
                != p[j] by {
                assert(p[i] == list[i] && p[j] == list[j]);
            }
        }
        lemma_without_prefixed_unrepeated(p, prefix);
        let r = without_prefixed(p, prefix);
        let y = list.last();
        assert forall|z: Seq<char>| #[trigger] r.contains(z) implies list.contains(z) by {
            let k = choose|k: int| 0 <= k < p.len() && p[k] == z;
            assert(list[k] == z);
        }
        if !starts_with(y, prefix) {
            assert(!r.contains(y)) by {
                if r.contains(y) {
                    assert(p.contains(y));
                    let k = choose|k: int| 0 <= k < p.len() && p[k] == y;
                    assert(list[k] == list[list.len() - 1]);
                }
            }
            lemma_push_new_unrepeated(r, y);
            assert forall|z: Seq<char>| #[trigger] r.push(y).contains(z) implies list.contains(z) by {
                let k = choose|k: int| 0 <= k < r.push(y).len() && r.push(y)[k] == z;
                if k < r.len() {
                    assert(r[k] == z);
                    assert(r.contains(z));
                } else {
                    assert(list[list.len() - 1] == z);
                }
            }
        }
    }
}

/// Ticking or unticking keeps a list free of repeats; afterwards a ticked
/// name is in it (once) and an unticked one is not.
pub proof fn lemma_toggled_unrepeated(list: Seq<Seq<char>>, x: Seq<char>, on: bool)
    requires
        list.no_duplicates(),
    ensures
        toggled(list, x, on).no_duplicates(),
        toggled(list, x, on).contains(x) == on,
{
    if on {
        lemma_push_new_unrepeated(list, x);
    } else {
        lemma_without_entry_unrepeated(list, x);
        lemma_without_entry(list, x);
    }
}

/// Moving the entry at `i` to position `j` keeps a list free of repeats.
pub proof fn lemma_move_unrepeated(list: Seq<Seq<char>>, i: int, j: int)
    requires
        list.no_duplicates(),
        0 <= i < list.len(),
        0 <= j < list.len(),
    ensures
        list.remove(i).insert(j, list[i]).no_duplicates(),
{
    let r = list.remove(i);
    let m = r.insert(j, list[i]);
    assert forall|a: int, b: int| 0 <= a < m.len() && 0 <= b < m.len() && a != b implies m[a] != m[b] by {
        let src = |k: int| if k < j {
            if k < i { k } else { k + 1 }
        } else if k == j {
            i
        } else {
            if k - 1 < i { k - 1 } else { k }
        };
        assert(m[a] == list[src(a)]);
        assert(m[b] == list[src(b)]);
        assert(src(a) != src(b));
    }
}

} // verus!
