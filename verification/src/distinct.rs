//! Lists without repetition.

use vstd::prelude::*;

verus! {

/// The elements of a list without repetition, in the order in which they first
/// stand there.
pub open spec fn distinct<T>(s: Seq<T>) -> Seq<T>
    decreases s.len(),
{
    if s.len() == 0 {
        Seq::empty()
    } else {
        let before = distinct(s.drop_last());
        if before.contains(s.last()) {
            before
        } else {
            before.push(s.last())
        }
    }
}

/// Removing repetition leaves each element exactly once, and no other.
pub proof fn law_distinct<T>(s: Seq<T>)
    ensures
        distinct(s).no_duplicates(),
        distinct(s).len() <= s.len(),
        forall|x: T|
            #![trigger distinct(s).contains(x)]
            #![trigger s.contains(x)]
            distinct(s).contains(x) <==> s.contains(x),
    decreases s.len(),
{
    if s.len() > 0 {
        let front = s.drop_last();
        let before = distinct(front);
        law_distinct(front);
        assert forall|x: T| distinct(s).contains(x) <==> s.contains(x) by {
            assert(s =~= front.push(s.last()));
            if s.contains(x) {
                let k = choose|k: int| 0 <= k < s.len() && s[k] == x;
                if k < front.len() {
                    assert(front[k] == x);
                    assert(front.contains(x));
                    let m = choose|m: int| 0 <= m < before.len() && before[m] == x;
                    assert(distinct(s)[m] == x);
                } else if !before.contains(x) {
                    assert(distinct(s)[before.len() as int] == x);
                }
            }
            if distinct(s).contains(x) {
                let m = choose|m: int| 0 <= m < distinct(s).len() && distinct(s)[m] == x;
                if m < before.len() {
                    assert(before[m] == x);
                    assert(before.contains(x));
                    let k = choose|k: int| 0 <= k < front.len() && front[k] == x;
                    assert(s[k] == x);
                } else {
                    assert(s[s.len() - 1] == x);
                }
            }
        }
    }
}

/// A list, and after it the elements of another that it does not hold yet, each
/// once.
pub open spec fn extend_distinct<T>(base: Seq<T>, more: Seq<T>) -> Seq<T>
    decreases more.len(),
{
    if more.len() == 0 {
        base
    } else {
        let before = extend_distinct(base, more.drop_last());
        if before.contains(more.last()) {
            before
        } else {
            before.push(more.last())
        }
    }
}

/// Removing repetition from a list and then adding another gives what removing
/// repetition from the two together gives.
pub proof fn law_extend_distinct<T>(first: Seq<T>, second: Seq<T>)
    ensures
        extend_distinct(distinct(first), second) == distinct(first + second),
    decreases second.len(),
{
    if second.len() == 0 {
        assert(first + second =~= first);
    } else {
        law_extend_distinct(first, second.drop_last());
        assert((first + second).drop_last() =~= first + second.drop_last());
        assert((first + second).last() == second.last());
    }
}

/// One element is added at the end, unless the list holds it.
pub proof fn lemma_extend_single<T>(base: Seq<T>, x: T)
    ensures
        extend_distinct(base, seq![x]) == if base.contains(x) {
            base
        } else {
            base.push(x)
        },
{
    assert(seq![x].drop_last() =~= Seq::empty());
    assert(extend_distinct(base, seq![x].drop_last()) == base);
}

/// Adding elements one after another is adding them together.
pub proof fn lemma_extend_one<T>(base: Seq<T>, more: Seq<T>, x: T)
    ensures
        extend_distinct(extend_distinct(base, more), seq![x]) == extend_distinct(
            base,
            more.push(x),
        ),
{
    lemma_extend_single(extend_distinct(base, more), x);
    assert(more.push(x).drop_last() =~= more);
}

/// Removing repetition keeps the order: what the start of a list gives stands at the
/// start, and a list without repetition stays as it is.
pub proof fn law_distinct_order<T>(a: Seq<T>, b: Seq<T>)
    ensures
        distinct(a).len() <= distinct(a + b).len(),
        distinct(a + b).take(distinct(a).len() as int) == distinct(a),
        a.no_duplicates() ==> distinct(a) == a,
    decreases a.len() + b.len(),
{
    if b.len() > 0 {
        let less = b.drop_last();
        law_distinct_order(a, less);
        assert((a + b).drop_last() =~= a + less);
        assert(distinct(a + b).take(distinct(a).len() as int) =~= distinct(a + less).take(
            distinct(a).len() as int,
        ));
    } else {
        assert(a + b =~= a);
        assert(distinct(a).take(distinct(a).len() as int) =~= distinct(a));
    }
    if a.no_duplicates() && a.len() > 0 {
        let front = a.drop_last();
        law_distinct_order(front, Seq::empty());
        assert(!front.contains(a.last())) by {
            if front.contains(a.last()) {
                let k = choose|k: int| 0 <= k < front.len() && front[k] == a.last();
                assert(a[k] == a[a.len() - 1]);
            }
        }
        assert(distinct(a) =~= a);
    } else if a.len() == 0 {
        assert(distinct(a) =~= a);
    }
}

/// A list to which another is added starts as it was, and has of the other what it
/// did not have.
pub proof fn law_extend_keeps<T>(base: Seq<T>, more: Seq<T>)
    ensures
        base.len() <= extend_distinct(base, more).len(),
        extend_distinct(base, more).take(base.len() as int) == base,
        forall|x: T|
            #![trigger extend_distinct(base, more).contains(x)]
            #![trigger base.contains(x)]
            #![trigger more.contains(x)]
            extend_distinct(base, more).contains(x) <==> base.contains(x) || more.contains(x),
        base.no_duplicates() ==> extend_distinct(base, more).no_duplicates(),
    decreases more.len(),
{
    if more.len() == 0 {
        assert(base.take(base.len() as int) =~= base);
    } else {
        let less = more.drop_last();
        let before = extend_distinct(base, less);
        let after = extend_distinct(base, more);
        let last = more.last();
        law_extend_keeps(base, less);
        assert(after.take(base.len() as int) =~= before.take(base.len() as int));
        assert(more[more.len() - 1] == last);
        assert forall|x: T| after.contains(x) <==> base.contains(x) || more.contains(x) by {
            if after.contains(x) {
                let k = choose|k: int| 0 <= k < after.len() && after[k] == x;
                if k < before.len() {
                    assert(before[k] == x);
                    assert(before.contains(x));
                    if less.contains(x) {
                        let m = choose|m: int| 0 <= m < less.len() && less[m] == x;
                        assert(more[m] == x);
                    }
                }
            }
            if base.contains(x) || less.contains(x) {
                assert(before.contains(x));
                let k = choose|k: int| 0 <= k < before.len() && before[k] == x;
                assert(after[k] == x);
            }
            if more.contains(x) && !less.contains(x) {
                let m = choose|m: int| 0 <= m < more.len() && more[m] == x;
                if m < less.len() {
                    assert(less[m] == x);
                }
                assert(x == last);
                if !before.contains(last) {
                    assert(after[before.len() as int] == last);
                }
            }
        }
    }
}

} // verus!
