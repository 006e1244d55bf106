//! Facts about sequences that several modules use.

use vstd::prelude::*;

verus! {

/// The first appearance of each element, in order.
pub open spec fn first_appearances<T>(s: Seq<T>) -> Seq<T>
    decreases s.len(),
{
    if s.len() == 0 {
        Seq::empty()
    } else {
        let rest = first_appearances(s.drop_last());
        if rest.contains(s.last()) {
            rest
        } else {
            rest.push(s.last())
        }
    }
}

pub proof fn first_appearances_push<T>(s: Seq<T>, c: T)
    ensures
        first_appearances(s.push(c)) == (if first_appearances(s).contains(c) {
            first_appearances(s)
        } else {
            first_appearances(s).push(c)
        }),
{
    assert(s.push(c).drop_last() == s);
}

/// More elements give no fewer first appearances.
pub proof fn first_appearances_grow<T>(s: Seq<T>, t: Seq<T>)
    ensures
        first_appearances(s).len() <= first_appearances(s + t).len(),
    decreases t.len(),
{
    if t.len() == 0 {
        assert(s + t == s);
    } else {
        first_appearances_grow(s, t.drop_last());
        assert((s + t).drop_last() == s + t.drop_last());
    }
}

/// There are no more first appearances than elements.
pub proof fn first_appearances_bound<T>(s: Seq<T>)
    ensures
        first_appearances(s).len() <= s.len(),
    decreases s.len(),
{
    if s.len() > 0 {
        first_appearances_bound(s.drop_last());
    }
}

/// First appearances hold every element once.
pub proof fn first_appearances_same_elements<T>(s: Seq<T>)
    ensures
        first_appearances(s).no_duplicates(),
        forall|c: T| #[trigger] first_appearances(s).contains(c) <==> s.contains(c),
    decreases s.len(),
{
    if s.len() > 0 {
        first_appearances_same_elements(s.drop_last());
        let rest = first_appearances(s.drop_last());
        assert forall|c: T| #[trigger] first_appearances(s).contains(c) <==> s.contains(c) by {
            if first_appearances(s).contains(c) {
                let i = first_appearances(s).index_of(c);
                if i < rest.len() {
                    assert(rest.contains(rest[i]));
                    let j = s.drop_last().index_of(c);
                    assert(s[j] == c);
                } else {
                    assert(s[s.len() - 1] == c);
                }
            }
            if s.contains(c) {
                let j = s.index_of(c);
                if j < s.len() - 1 {
                    assert(s.drop_last()[j] == c);
                    assert(rest.contains(c));
                }
                if rest.contains(c) {
                    let i = rest.index_of(c);
                    assert(first_appearances(s)[i] == c);
                } else {
                    assert(c == s.last());
                    assert(first_appearances(s)[rest.len() as int] == c);
                }
            }
        }
    }
}

/// First appearances keep the order of the elements: where one comes before another, it appears
/// before the other does.
pub proof fn first_appearances_keep_the_order<T>(s: Seq<T>, a: int, b: int) -> (i: int)
    requires
        0 <= a < b < first_appearances(s).len(),
    ensures
        0 <= i < s.len(),
        s[i] == first_appearances(s)[a],
        forall|j: int| 0 <= j <= i ==> s[j] != first_appearances(s)[b],
    decreases s.len(),
{
    let rest = first_appearances(s.drop_last());
    first_appearances_same_elements(s.drop_last());
    if b < rest.len() {
        let i = first_appearances_keep_the_order(s.drop_last(), a, b);
        assert forall|j: int| 0 <= j <= i implies s[j] != first_appearances(s)[b] by {
            assert(s.drop_last()[j] == s[j]);
        }
        i
    } else {
        assert(rest.contains(rest[a]));
        let i = s.drop_last().index_of(rest[a]);
        assert forall|j: int| 0 <= j <= i implies s[j] != first_appearances(s)[b] by {
            if s[j] == s.last() {
                assert(s.drop_last()[j] == s[j]);
                assert(s.drop_last().contains(s[j]));
            }
        }
        i
    }
}

} // verus!
