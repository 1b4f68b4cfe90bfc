//! The order of texts: lexicographic by code point, the order in which `str`
//! compares, and the one way to list a set of texts in that order.
use vstd::prelude::*;

verus! {

/// Whether the texts agree up to position `i` and `a` comes first because of
/// what stands there: `a` ends, or has the smaller character.
pub open spec fn parts_at(a: Seq<char>, b: Seq<char>, i: int) -> bool {
    &&& 0 <= i < b.len()
    &&& i <= a.len()
    &&& a.take(i) == b.take(i)
    &&& i == a.len() || a[i] < b[i]
}

/// Whether `a` comes strictly before `b`.
pub open spec fn precedes(a: Seq<char>, b: Seq<char>) -> bool {
    exists|i: int| parts_at(a, b, i)
}

/// Whether every text of the list comes strictly before the later ones.
pub open spec fn is_ascending(keys: Seq<Seq<char>>) -> bool {
    forall|i: int, j: int| 0 <= i < j < keys.len() ==> precedes(keys[i], keys[j])
}

/// The texts of a finite set, listed in ascending order.
pub open spec fn ascending(keys: Set<Seq<char>>) -> Seq<Seq<char>> {
    choose|list: Seq<Seq<char>>| is_ascending(list) && list.to_set() == keys
}

/// The order is that of code points: of two texts the one comes first that ends
/// where they part, or has the smaller character there.
pub proof fn order_is_that_of_code_points(a: Seq<char>, b: Seq<char>)
    ensures
        precedes(a, b) <==> exists|i: int|
            {
                &&& 0 <= i <= a.len()
                &&& i < b.len()
                &&& a.subrange(0, i) == #[trigger] b.subrange(0, i)
                &&& i == a.len() || (a[i] as int) < (b[i] as int)
            },
{
    if precedes(a, b) {
        let i = choose|i: int| parts_at(a, b, i);
        assert(a.subrange(0, i) =~= a.take(i));
        assert(b.subrange(0, i) =~= b.take(i));
    }
    if exists|i: int|
        {
            &&& 0 <= i <= a.len()
            &&& i < b.len()
            &&& a.subrange(0, i) == #[trigger] b.subrange(0, i)
            &&& i == a.len() || (a[i] as int) < (b[i] as int)
        } {
        let i = choose|i: int|
            {
                &&& 0 <= i <= a.len()
                &&& i < b.len()
                &&& a.subrange(0, i) == #[trigger] b.subrange(0, i)
                &&& i == a.len() || (a[i] as int) < (b[i] as int)
            };
        assert(a.subrange(0, i) =~= a.take(i));
        assert(b.subrange(0, i) =~= b.take(i));
        assert(parts_at(a, b, i));
    }
}

/// No text comes before itself, and of two texts at most one comes before the
/// other.
pub proof fn order_is_asymmetric(a: Seq<char>, b: Seq<char>)
    requires
        precedes(a, b),
    ensures
        a != b,
        !precedes(b, a),
{
    let i = choose|i: int| parts_at(a, b, i);
    if i < a.len() {
        assert(a[i] != b[i]);
    }
    if precedes(b, a) {
        let j = choose|j: int| parts_at(b, a, j);
        if i < j {
            assert(a.take(j)[i] == b.take(j)[i]);
        } else if j < i {
            assert(a.take(i)[j] == b.take(i)[j]);
        }
    }
}

proof fn lemma_parted(a: Seq<char>, b: Seq<char>, i: int)
    requires
        parts_at(a, b, i),
    ensures
        precedes(a, b),
        a != b,
        !precedes(b, a),
{
    assert(precedes(a, b));
    order_is_asymmetric(a, b);
}

/// What comes before a text comes before all that follows it.
pub proof fn order_is_transitive(a: Seq<char>, b: Seq<char>, c: Seq<char>)
    requires
        precedes(a, b),
        precedes(b, c),
    ensures
        precedes(a, c),
{
    let i = choose|i: int| parts_at(a, b, i);
    let j = choose|j: int| parts_at(b, c, j);
    if i < j {
        assert(b.take(j)[i] == c.take(j)[i]);
        assert(b.take(j).take(i) == c.take(j).take(i));
        assert(b.take(j).take(i) =~= b.take(i));
        assert(c.take(j).take(i) =~= c.take(i));
        assert(parts_at(a, c, i));
    } else {
        if j < i {
            assert(a.take(i)[j] == b.take(i)[j]);
        }
        assert(a.take(i).take(j) == b.take(i).take(j));
        assert(a.take(i).take(j) =~= a.take(j));
        assert(b.take(i).take(j) =~= b.take(j));
        assert(parts_at(a, c, j));
    }
}

/// Of two different texts one comes before the other.
pub proof fn order_is_total(a: Seq<char>, b: Seq<char>)
    ensures
        a == b || precedes(a, b) || precedes(b, a),
{
    assert(a.take(0) =~= b.take(0));
    lemma_part_from(a, b, 0);
}

proof fn lemma_part_from(a: Seq<char>, b: Seq<char>, i: int)
    requires
        0 <= i <= a.len(),
        i <= b.len(),
        a.take(i) == b.take(i),
    ensures
        a == b || precedes(a, b) || precedes(b, a),
    decreases a.len() - i,
{
    if i == a.len() && i == b.len() {
        assert(a.take(i) =~= a);
        assert(b.take(i) =~= b);
    } else if i == a.len() {
        assert(parts_at(a, b, i));
    } else if i == b.len() {
        assert(parts_at(b, a, i));
    } else if a[i] < b[i] {
        assert(parts_at(a, b, i));
    } else if b[i] < a[i] {
        assert(parts_at(b, a, i));
    } else {
        assert(a.take(i + 1) =~= a.take(i).push(a[i]));
        assert(b.take(i + 1) =~= b.take(i).push(b[i]));
        lemma_part_from(a, b, i + 1);
    }
}

/// The place at which a new text belongs in an ascending list.
proof fn lemma_place_in(list: Seq<Seq<char>>, key: Seq<char>) -> (p: int)
    requires
        is_ascending(list),
        !list.contains(key),
    ensures
        0 <= p <= list.len(),
        forall|i: int| 0 <= i < p ==> precedes(#[trigger] list[i], key),
        forall|i: int| p <= i < list.len() ==> precedes(key, #[trigger] list[i]),
    decreases list.len(),
{
    if list.len() == 0 {
        0
    } else {
        assert(list.contains(list.last()));
        order_is_total(list.last(), key);
        if precedes(list.last(), key) {
            assert forall|i: int| 0 <= i < list.len() implies precedes(#[trigger] list[i], key) by {
                if i < list.len() - 1 {
                    order_is_transitive(list[i], list.last(), key);
                }
            }
            list.len() as int
        } else {
            let rest = list.drop_last();
            assert forall|i: int| 0 <= i < rest.len() implies #[trigger] rest[i] != key by {
                assert(list[i] != key);
            }
            let p = lemma_place_in(rest, key);
            assert forall|i: int| 0 <= i < p implies precedes(#[trigger] list[i], key) by {
                assert(rest[i] == list[i]);
            }
            assert forall|i: int| p <= i < list.len() implies precedes(key, #[trigger] list[i]) by {
                if i < rest.len() {
                    assert(rest[i] == list[i]);
                }
            }
            p
        }
    }
}

/// A finite set of texts has an ascending list.
proof fn lemma_has_ascending_list(keys: Set<Seq<char>>)
    requires
        keys.finite(),
    ensures
        exists|list: Seq<Seq<char>>| is_ascending(list) && list.to_set() == keys,
    decreases keys.len(),
{
    if keys.len() == 0 {
        let list = Seq::<Seq<char>>::empty();
        assert(list.to_set() =~= keys);
        assert(is_ascending(list) && list.to_set() == keys);
    } else {
        let key = keys.choose();
        let others = keys.remove(key);
        lemma_has_ascending_list(others);
        let list = choose|list: Seq<Seq<char>>| is_ascending(list) && list.to_set() == others;
        assert(!list.to_set().contains(key));
        let p = lemma_place_in(list, key);
        let all = list.insert(p, key);
        assert forall|i: int, j: int| 0 <= i < j < all.len() implies precedes(all[i], all[j]) by {
            let i0 = if i < p { i } else { i - 1 };
            let j0 = if j < p { j } else { j - 1 };
            if i != p && j != p {
                assert(precedes(list[i0], list[j0]));
            } else if i == p {
                assert(precedes(key, list[j0]));
            } else {
                assert(precedes(list[i0], key));
            }
        }
        assert forall|k: Seq<char>| all.to_set().contains(k) <==> keys.contains(k) by {
            if all.contains(k) {
                let x = choose|x: int| 0 <= x < all.len() && all[x] == k;
                if x != p {
                    let x0 = if x < p { x } else { x - 1 };
                    assert(list[x0] == k);
                    assert(list.to_set().contains(k));
                }
            }
            if keys.contains(k) && k != key {
                assert(list.to_set().contains(k));
                let x = choose|x: int| 0 <= x < list.len() && list[x] == k;
                let x1 = if x < p { x } else { x + 1 };
                assert(all[x1] == k);
            }
            assert(all[p] == key);
        }
        assert(all.to_set() =~= keys);
        assert(is_ascending(all) && all.to_set() == keys);
    }
}

/// The ascending list of a finite set has the texts of the set and no others.
pub proof fn ascending_lists_the_set(keys: Set<Seq<char>>)
    requires
        keys.finite(),
    ensures
        is_ascending(ascending(keys)),
        ascending(keys).to_set() == keys,
        forall|i: int, j: int|
            0 <= i < j < ascending(keys).len() ==> precedes(
                #[trigger] ascending(keys)[i],
                #[trigger] ascending(keys)[j],
            ),
        forall|key: Seq<char>| #[trigger] ascending(keys).contains(key) <==> keys.contains(key),
{
    lemma_has_ascending_list(keys);
    assert forall|key: Seq<char>| #[trigger] ascending(keys).contains(key) <==> keys.contains(key) by {
        assert(ascending(keys).to_set().contains(key) <==> ascending(keys).contains(key));
    }
}

/// A set of texts has at most one ascending list.
proof fn lemma_one_ascending_list(p: Seq<Seq<char>>, q: Seq<Seq<char>>)
    requires
        is_ascending(p),
        is_ascending(q),
        p.to_set() == q.to_set(),
    ensures
        p == q,
    decreases p.len(),
{
    if p.len() == 0 {
        if q.len() > 0 {
            assert(q.to_set().contains(q[0]));
            assert(p.contains(q[0]));
        }
        assert(p =~= q);
    } else {
        assert(p.to_set().contains(p.last()));
        assert(q.contains(p.last()));
        let j = choose|j: int| 0 <= j < q.len() && q[j] == p.last();
        assert(q.to_set().contains(q.last()));
        assert(p.contains(q.last()));
        let i = choose|i: int| 0 <= i < p.len() && p[i] == q.last();
        if j < q.len() - 1 {
            assert(precedes(q[j], q.last()));
            order_is_asymmetric(p.last(), q.last());
            assert(i < p.len() - 1);
            assert(precedes(p[i], p.last()));
        }
        assert(p.last() == q.last());
        let p1 = p.drop_last();
        let q1 = q.drop_last();
        assert forall|k: Seq<char>| p1.contains(k) <==> q1.contains(k) by {
            if p1.contains(k) {
                let x = choose|x: int| 0 <= x < p1.len() && p1[x] == k;
                assert(p[x] == k);
                assert(precedes(p[x], p.last()));
                order_is_asymmetric(k, p.last());
                assert(p.to_set().contains(k));
                assert(q.contains(k));
                let y = choose|y: int| 0 <= y < q.len() && q[y] == k;
                assert(q1[y] == k);
            }
            if q1.contains(k) {
                let x = choose|x: int| 0 <= x < q1.len() && q1[x] == k;
                assert(q[x] == k);
                assert(precedes(q[x], q.last()));
                order_is_asymmetric(k, q.last());
                assert(q.to_set().contains(k));
                assert(p.contains(k));
                let y = choose|y: int| 0 <= y < p.len() && p[y] == k;
                assert(p1[y] == k);
            }
        }
        assert(p1.to_set() =~= q1.to_set());
        lemma_one_ascending_list(p1, q1);
        assert(p =~= p1.push(p.last()));
        assert(q =~= q1.push(q.last()));
    }
}

/// An ascending list is the ascending list of its own texts.
pub proof fn ascending_list_is_canonical(list: Seq<Seq<char>>)
    requires
        is_ascending(list),
    ensures
        ascending(list.to_set()) == list,
{
    lemma_one_ascending_list(ascending(list.to_set()), list);
}

/// What a filter takes of an ascending list is ascending.
pub proof fn lemma_filter_ascends(list: Seq<Seq<char>>, pred: spec_fn(Seq<char>) -> bool)
    requires
        is_ascending(list),
    ensures
        is_ascending(list.filter(pred)),
    decreases list.len(),
{
    if list.len() == 0 {
        list.lemma_filter_len(pred);
    } else {
        let rest = list.drop_last();
        let kept = rest.filter(pred);
        lemma_filter_ascends(rest, pred);
        assert(list =~= rest.push(list.last()));
        rest.lemma_filter_push(list.last(), pred);
        assert forall|i: int| 0 <= i < kept.len() implies precedes(#[trigger] kept[i], list.last()) by {
            assert(kept.contains(kept[i]));
            rest.lemma_filter_contains_rev(pred, kept[i]);
            let k = choose|k: int| 0 <= k < rest.len() && rest[k] == kept[i];
            assert(precedes(list[k], list[list.len() - 1]));
        }
    }
}

/// How one text stands to another in the order.
#[derive(Debug, Clone, Copy, PartialEq, Eq, Structural)]
pub enum Standing {
    Before,
    Same,
    After,
}

/// Compares two texts.
pub fn standing(a: &str, b: &str) -> (r: Standing)
    ensures
        r == Standing::Before <==> precedes(a@, b@),
        r == Standing::Same <==> a@ == b@,
        r == Standing::After <==> precedes(b@, a@),
{
    let mut xs = a.chars();
    let mut ys = b.chars();
    let ghost mut i: int = 0;
    proof {
        assert(a@.skip(0) =~= a@);
        assert(b@.skip(0) =~= b@);
        assert(a@.take(0) =~= b@.take(0));
    }
    loop
        invariant
            0 <= i <= a@.len(),
            i <= b@.len(),
            a@.take(i) == b@.take(i),
            vstd::std_specs::iter::IteratorSpec::remaining(&xs) == a@.skip(i),
            vstd::std_specs::iter::IteratorSpec::remaining(&ys) == b@.skip(i),
        decreases a@.len() - i,
    {
        match (xs.next(), ys.next()) {
            (Some(x), Some(y)) => {
                assert(a@.skip(i)[0] == a@[i]);
                assert(b@.skip(i)[0] == b@[i]);
                if x < y {
                    proof {
                        lemma_parted(a@, b@, i);
                    }
                    return Standing::Before;
                }
                if y < x {
                    proof {
                        lemma_parted(b@, a@, i);
                    }
                    return Standing::After;
                }
                proof {
                    assert(a@.take(i + 1) =~= a@.take(i).push(a@[i]));
                    assert(b@.take(i + 1) =~= b@.take(i).push(b@[i]));
                    assert(a@.skip(i).drop_first() =~= a@.skip(i + 1));
                    assert(b@.skip(i).drop_first() =~= b@.skip(i + 1));
                    i = i + 1;
                }
            },
            (None, Some(_)) => {
                proof {
                    lemma_parted(a@, b@, i);
                }
                return Standing::Before;
            },
            (Some(_), None) => {
                proof {
                    lemma_parted(b@, a@, i);
                }
                return Standing::After;
            },
            (None, None) => {
                proof {
                    assert(a@.take(i) =~= a@);
                    assert(b@.take(i) =~= b@);
                    if precedes(a@, b@) {
                        order_is_asymmetric(a@, b@);
                    }
                }
                return Standing::Same;
            },
        }
    }
}

} // verus!
