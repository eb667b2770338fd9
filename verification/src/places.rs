//! Places in lists.
use vstd::prelude::*;

verus! {

/// What a sequence contains once an element was put behind it.
pub proof fn lemma_push_contains<T>(s: Seq<T>, x: T)
    ensures
        forall|y: T| #[trigger] s.push(x).contains(y) <==> s.contains(y) || y == x,
{
    assert forall|y: T| #[trigger] s.push(x).contains(y) <==> s.contains(y) || y == x by {
        if s.contains(y) {
            let j = choose|j: int| 0 <= j < s.len() && s[j] == y;
            assert(s.push(x)[j] == y);
        }
        if y == x {
            assert(s.push(x)[s.len() as int] == y);
        }
    }
}

/// Whether `places` are places of a list of `len` elements, in their order.
pub open spec fn are_places(places: Seq<int>, len: int) -> bool {
    &&& forall|j: int| 0 <= j < places.len() ==> 0 <= #[trigger] places[j] < len
    &&& forall|j: int, k: int|
        0 <= j < k < places.len() ==> #[trigger] places[j] < #[trigger] places[k]
}

/// One more place at the end.
pub proof fn lemma_one_more_place(places: Seq<int>, len: int)
    requires
        are_places(places, len),
        len >= 0,
    ensures
        are_places(places, len + 1),
        are_places(places.push(len), len + 1),
        forall|i: int| #[trigger] places.push(len).contains(i) <==> places.contains(i) || i == len,
{
    lemma_push_contains(places, len);
}

} // verus!
