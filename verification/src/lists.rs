//! What filters take of lists, by position.
use vstd::prelude::*;

verus! {

/// The positions that a filter takes: in order, with the elements that it takes,
/// and none left out.
pub proof fn lemma_filter_places<A>(s: Seq<A>, pred: spec_fn(A) -> bool) -> (places: Seq<int>)
    ensures
        places.len() == s.filter(pred).len(),
        forall|k: int|
            0 <= k < places.len() ==> {
                &&& 0 <= #[trigger] places[k] < s.len()
                &&& pred(s[places[k]])
                &&& s.filter(pred)[k] == s[places[k]]
            },
        forall|k: int, l: int| 0 <= k < l < places.len() ==> places[k] < places[l],
        forall|i: int| 0 <= i < s.len() && pred(#[trigger] s[i]) ==> places.contains(i),
    decreases s.len(),
{
    if s.len() == 0 {
        s.lemma_filter_len(pred);
        Seq::empty()
    } else {
        let rest = s.drop_last();
        let last = s.len() - 1;
        let before = lemma_filter_places(rest, pred);
        assert(s =~= rest.push(s.last()));
        rest.lemma_filter_push(s.last(), pred);
        let places = if pred(s.last()) {
            before.push(last)
        } else {
            before
        };
        assert forall|k: int| 0 <= k < places.len() implies {
            &&& 0 <= #[trigger] places[k] < s.len()
            &&& pred(s[places[k]])
            &&& s.filter(pred)[k] == s[places[k]]
        } by {
            if k < before.len() {
                assert(places[k] == before[k]);
                assert(rest[before[k]] == s[before[k]]);
            }
        }
        assert forall|i: int| 0 <= i < s.len() && pred(#[trigger] s[i]) implies places.contains(i) by {
            if i < last {
                assert(rest[i] == s[i]);
                let k = choose|k: int| 0 <= k < before.len() && before[k] == i;
                assert(places[k] == i);
            } else {
                assert(places[places.len() - 1] == i);
            }
        }
        places
    }
}

} // verus!
