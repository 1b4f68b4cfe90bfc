//! Looking symbols up in an index.
use crate::error;
use crate::error::ReferenceError;
use crate::lists;
use crate::order;
use crate::order::{standing, Standing};
use crate::symbols;
use crate::symbols::{ReferenceSymbolEntry, ReferenceSymbolIndex};
use crate::text::{is_text, same_text};
use vstd::prelude::*;

verus! {

/// All symbols of an index: the files in the ascending order of their keys, the
/// symbols of each in their own order.
pub open spec fn all_symbols(files: Map<Seq<char>, symbols::FileModel>) -> Seq<symbols::EntryModel> {
    order::ascending(files.dom()).map_values(|key: Seq<char>| files[key].symbols).flatten()
}

/// Whether a symbol is asked for: it has the name, and the kind and the namespace
/// if they are given.
pub open spec fn is_asked_for(
    entry: symbols::EntryModel,
    name: Seq<char>,
    kind: Option<Seq<char>>,
    namespace: Option<Seq<char>>,
) -> bool {
    &&& entry.name == name
    &&& kind is Some ==> entry.kind == kind->0
    &&& namespace is Some ==> entry.namespace == namespace
}

/// The symbols asked for, in the order of the index.
pub open spec fn asked_for(
    files: Map<Seq<char>, symbols::FileModel>,
    name: Seq<char>,
    kind: Option<Seq<char>>,
    namespace: Option<Seq<char>>,
) -> Seq<symbols::EntryModel> {
    all_symbols(files).filter(|e: symbols::EntryModel| is_asked_for(e, name, kind, namespace))
}

/// Whether a symbol stands on the given line of the given file.
pub open spec fn stands_at(path: Seq<char>, line: u32) -> spec_fn(symbols::EntryModel) -> bool {
    |e: symbols::EntryModel| e.path == path && e.line == line
}

/// Whether the place of `a`, by path and then by line, is not behind that of `b`.
pub open spec fn not_behind(a: symbols::EntryModel, b: symbols::EntryModel) -> bool {
    order::precedes(a.path, b.path) || a.path == b.path && a.line <= b.line
}

/// Whether `sorted` is `found`, ordered by path and line, with the symbols of one
/// place left in the order in which they were found.
pub open spec fn is_sorted_by_place(
    sorted: Seq<symbols::EntryModel>,
    found: Seq<symbols::EntryModel>,
) -> bool {
    &&& forall|i: int, j: int| 0 <= i < j < sorted.len() ==> not_behind(sorted[i], sorted[j])
    &&& forall|path: Seq<char>, line: u32|
        sorted.filter(#[trigger] stands_at(path, line)) == found.filter(stands_at(path, line))
}

proof fn lemma_places_chain(a: symbols::EntryModel, b: symbols::EntryModel, c: symbols::EntryModel)
    requires
        not_behind(a, b),
        not_behind(b, c),
    ensures
        not_behind(a, c),
{
    if order::precedes(a.path, b.path) && order::precedes(b.path, c.path) {
        order::order_is_transitive(a.path, b.path, c.path);
    }
}

/// Whether `a` stands strictly before `b`.
fn stands_before(a: &ReferenceSymbolEntry, b: &ReferenceSymbolEntry) -> (r: bool)
    ensures
        r == !not_behind(b.deep_view(), a.deep_view()),
        r ==> not_behind(a.deep_view(), b.deep_view()),
{
    proof {
        if order::precedes(a.path@, b.path@) {
            order::order_is_asymmetric(a.path@, b.path@);
        }
    }
    match standing(a.path.as_str(), b.path.as_str()) {
        Standing::Before => true,
        Standing::After => false,
        Standing::Same => a.line < b.line,
    }
}

/// A symbol put behind those of its own place, and before those further on, keeps
/// the list sorted.
proof fn lemma_sorted_insert(
    sorted: Seq<symbols::EntryModel>,
    found: Seq<symbols::EntryModel>,
    entry: symbols::EntryModel,
    p: int,
)
    requires
        is_sorted_by_place(sorted, found),
        0 <= p <= sorted.len(),
        forall|i: int| 0 <= i < p ==> not_behind(#[trigger] sorted[i], entry),
        forall|i: int|
            p <= i < sorted.len() ==> not_behind(entry, #[trigger] sorted[i]) && !not_behind(
                sorted[i],
                entry,
            ),
    ensures
        is_sorted_by_place(sorted.insert(p, entry), found.push(entry)),
{
    let next = sorted.insert(p, entry);
    let head = sorted.take(p);
    let tail = sorted.skip(p);
    assert(sorted =~= head + tail);
    assert(next =~= head.push(entry) + tail);
    assert forall|path: Seq<char>, line: u32| next.filter(#[trigger] stands_at(path, line))
        == found.push(entry).filter(stands_at(path, line)) by {
        let here = stands_at(path, line);
        Seq::filter_distributes_over_add(head, tail, here);
        Seq::filter_distributes_over_add(head.push(entry), tail, here);
        head.lemma_filter_push(entry, here);
        found.lemma_filter_push(entry, here);
        assert(sorted.filter(here) == found.filter(here));
        if here(entry) {
            assert forall|i: int| 0 <= i < tail.len() implies !here(#[trigger] tail[i]) by {
                assert(tail[i] == sorted[p + i]);
            }
            lemma_filter_none(tail, here);
            assert(head.filter(here) + tail.filter(here) =~= head.filter(here));
            assert(head.push(entry).filter(here) + tail.filter(here) =~= head.push(entry).filter(here));
        }
    }
    assert forall|i: int, j: int| 0 <= i < j < next.len() implies not_behind(next[i], next[j]) by {
        let i0 = if i < p { i } else { i - 1 };
        let j0 = if j < p { j } else { j - 1 };
        if i != p && j != p {
            assert(not_behind(sorted[i0], sorted[j0]));
        } else if i == p {
            assert(next[j] == sorted[j0]);
        } else {
            assert(next[i] == sorted[i0]);
        }
    }
}

/// A filter that takes no element leaves nothing.
proof fn lemma_filter_none<A>(s: Seq<A>, pred: spec_fn(A) -> bool)
    requires
        forall|i: int| 0 <= i < s.len() ==> !pred(#[trigger] s[i]),
    ensures
        s.filter(pred) == Seq::<A>::empty(),
    decreases s.len(),
{
    reveal(Seq::filter);
    if s.len() > 0 {
        assert forall|i: int| 0 <= i < s.drop_last().len() implies !pred(#[trigger] s.drop_last()[i]) by {
            assert(s.drop_last()[i] == s[i]);
        }
        lemma_filter_none(s.drop_last(), pred);
    }
}

/// Adds a found symbol at its place among those found before.
fn insert_by_place(
    hits: &mut Vec<ReferenceSymbolEntry>,
    entry: ReferenceSymbolEntry,
    Ghost(found): Ghost<Seq<symbols::EntryModel>>,
)
    requires
        is_sorted_by_place(old(hits).deep_view(), found),
    ensures
        is_sorted_by_place(final(hits).deep_view(), found.push(entry.deep_view())),
{
    let ghost sorted = hits.deep_view();
    let ghost e = entry.deep_view();
    let mut p: usize = hits.len();
    while p > 0 && stands_before(&entry, &hits[p - 1])
        invariant
            p <= hits@.len(),
            sorted == hits.deep_view(),
            e == entry.deep_view(),
            forall|i: int|
                p <= i < sorted.len() ==> not_behind(e, #[trigger] sorted[i]) && !not_behind(
                    sorted[i],
                    e,
                ),
        ensures
            p <= hits@.len(),
            sorted == hits.deep_view(),
            e == entry.deep_view(),
            forall|i: int|
                p <= i < sorted.len() ==> not_behind(e, #[trigger] sorted[i]) && !not_behind(
                    sorted[i],
                    e,
                ),
            p > 0 ==> not_behind(sorted[p - 1], e),
        decreases p,
    {
        p -= 1;
    }
    proof {
        assert forall|i: int| 0 <= i < p implies not_behind(#[trigger] sorted[i], e) by {
            if i < p - 1 {
                lemma_places_chain(sorted[i], sorted[p - 1], e);
            }
        }
        lemma_sorted_insert(sorted, found, e, p as int);
    }
    hits.insert(p, entry);
    assert(hits.deep_view() =~= sorted.insert(p as int, e));
}

/// Whether a symbol is asked for.
fn entry_asked_for(
    entry: &ReferenceSymbolEntry,
    name: &str,
    kind: Option<&str>,
    namespace: Option<&str>,
) -> (r: bool)
    ensures
        r == is_asked_for(entry.deep_view(), name@, kind.deep_view(), namespace.deep_view()),
{
    if !same_text(entry.name.as_str(), name) {
        return false;
    }
    if let Some(kind) = kind {
        if !same_text(entry.kind.as_str(), kind) {
            return false;
        }
    }
    if let Some(namespace) = namespace {
        if !is_text(&entry.namespace, namespace) {
            return false;
        }
    }
    true
}

/// Finds the symbols with a name, and with a kind and a namespace if they are
/// given, ordered by path and line.
pub fn find_symbol(
    index: &ReferenceSymbolIndex,
    name: &str,
    kind: Option<&str>,
    namespace: Option<&str>,
) -> (hits: Vec<ReferenceSymbolEntry>)
    ensures
        is_sorted_by_place(
            hits.deep_view(),
            asked_for(index.deep_view().files, name@, kind.deep_view(), namespace.deep_view()),
        ),
        exists|places: Seq<Place>|
            are_hits(
                index.deep_view().files,
                name@,
                kind.deep_view(),
                namespace.deep_view(),
                hits.deep_view(),
                places,
            ),
        forall|i: int|
            0 <= i < hits@.len() ==> {
                &&& (#[trigger] hits@[i]).name@ == name@
                &&& kind is Some ==> hits@[i].kind@ == kind->0@
                &&& namespace is Some ==> hits@[i].namespace is Some && hits@[i].namespace->0@
                    == namespace->0@
            },
{
    let ghost files = index.files.deep_view();
    let ghost keys = order::ascending(files.dom());
    let ghost symbols_of = |key: Seq<char>| files[key].symbols;
    let ghost wanted = |e: symbols::EntryModel|
        is_asked_for(e, name@, kind.deep_view(), namespace.deep_view());
    let mut hits: Vec<ReferenceSymbolEntry> = Vec::new();
    let mut f: usize = 0;
    proof {
        assert(index.files@.dom() =~= files.dom());
        assert(keys.take(0).map_values(symbols_of) =~= Seq::empty());
        assert(hits.deep_view() =~= Seq::empty());
        assert(keys.take(0).map_values(symbols_of).flatten() =~= Seq::empty());
        assert(keys.take(0).map_values(symbols_of).flatten().filter(wanted) =~= Seq::empty());
    }
    while f < index.files.len()
        invariant
            f <= keys.len(),
            files == index.files.deep_view(),
            keys == index.files.keys(),
            symbols_of == (|key: Seq<char>| files[key].symbols),
            wanted == (|e: symbols::EntryModel|
                is_asked_for(e, name@, kind.deep_view(), namespace.deep_view())),
            is_sorted_by_place(
                hits.deep_view(),
                keys.take(f as int).map_values(symbols_of).flatten().filter(wanted),
            ),
        decreases keys.len() - f,
    {
        let file = index.files.value_at(f);
        let ghost passed = keys.take(f as int).map_values(symbols_of).flatten();
        let ghost here = file.symbols.deep_view();
        let mut s: usize = 0;
        assert(passed + here.take(0) =~= passed);
        while s < file.symbols.len()
            invariant
                s <= file.symbols@.len(),
                here == file.symbols.deep_view(),
                wanted == (|e: symbols::EntryModel|
                    is_asked_for(e, name@, kind.deep_view(), namespace.deep_view())),
                is_sorted_by_place(
                    hits.deep_view(),
                    (passed + here.take(s as int)).filter(wanted),
                ),
            decreases file.symbols@.len() - s,
        {
            let entry = &file.symbols[s];
            let ghost seen = passed + here.take(s as int);
            proof {
                assert(passed + here.take(s + 1) =~= seen.push(here[s as int]));
                assert(here[s as int] == entry.deep_view());
                seen.lemma_filter_push(here[s as int], wanted);
            }
            if entry_asked_for(entry, name, kind, namespace) {
                insert_by_place(&mut hits, entry.clone(), Ghost(seen.filter(wanted)));
            }
            s += 1;
        }
        proof {
            assert(here.take(s as int) =~= here);
            let lists = keys.take(f as int).map_values(symbols_of);
            assert(keys.take(f + 1).map_values(symbols_of) =~= lists.push(here));
            lists.lemma_flatten_push(here);
        }
        f += 1;
    }
    assert(keys.take(f as int) =~= keys);
    proof {
        assert(files.dom() =~= index.files@.dom());
        searches_list_places(
            files,
            name@,
            kind.deep_view(),
            namespace.deep_view(),
            hits.deep_view(),
        );
        let places = choose|places: Seq<Place>|
            are_hits(
                files,
                name@,
                kind.deep_view(),
                namespace.deep_view(),
                hits.deep_view(),
                places,
            );
        assert(index.deep_view().files == files);
        assert(are_hits(
            index.deep_view().files,
            name@,
            kind.deep_view(),
            namespace.deep_view(),
            hits.deep_view(),
            places,
        ));
        assert forall|i: int| 0 <= i < hits@.len() implies {
            &&& (#[trigger] hits@[i]).name@ == name@
            &&& kind is Some ==> hits@[i].kind@ == kind->0@
            &&& namespace is Some ==> hits@[i].namespace is Some && hits@[i].namespace->0@
                == namespace->0@
        } by {
            assert(has_place(files, places[i]));
            assert(hits.deep_view()[i] == hits@[i].deep_view());
        }
    }
    hits
}

/// Two symbols neither of which is behind the other stand at the same place.
proof fn lemma_same_place(a: symbols::EntryModel, b: symbols::EntryModel)
    requires
        not_behind(a, b),
        not_behind(b, a),
    ensures
        a.path == b.path,
        a.line == b.line,
{
    if order::precedes(a.path, b.path) {
        order::order_is_asymmetric(a.path, b.path);
    }
    if order::precedes(b.path, a.path) {
        order::order_is_asymmetric(b.path, a.path);
    }
}

/// What a sorted list holds is what was found.
proof fn lemma_sorted_holds_found(
    sorted: Seq<symbols::EntryModel>,
    found: Seq<symbols::EntryModel>,
    entry: symbols::EntryModel,
)
    requires
        is_sorted_by_place(sorted, found),
    ensures
        sorted.contains(entry) <==> found.contains(entry),
{
    let here = stands_at(entry.path, entry.line);
    if sorted.contains(entry) {
        let i = choose|i: int| 0 <= i < sorted.len() && sorted[i] == entry;
        sorted.lemma_filter_contains(here, i);
        found.lemma_filter_contains_rev(here, entry);
    }
    if found.contains(entry) {
        let i = choose|i: int| 0 <= i < found.len() && found[i] == entry;
        found.lemma_filter_contains(here, i);
        sorted.lemma_filter_contains_rev(here, entry);
    }
}

/// The symbols that a search returns are those asked for, and no others.
pub proof fn search_returns_what_was_asked_for(
    files: Map<Seq<char>, symbols::FileModel>,
    name: Seq<char>,
    kind: Option<Seq<char>>,
    namespace: Option<Seq<char>>,
    hits: Seq<symbols::EntryModel>,
)
    requires
        is_sorted_by_place(hits, asked_for(files, name, kind, namespace)),
    ensures
        forall|entry: symbols::EntryModel|
            #[trigger] hits.contains(entry) <==> all_symbols(files).contains(entry) && is_asked_for(
                entry,
                name,
                kind,
                namespace,
            ),
{
    let all = all_symbols(files);
    let wanted = |e: symbols::EntryModel| is_asked_for(e, name, kind, namespace);
    let found = all.filter(wanted);
    assert forall|entry: symbols::EntryModel| #[trigger] hits.contains(entry) <==> all.contains(entry)
        && is_asked_for(entry, name, kind, namespace) by {
        lemma_sorted_holds_found(hits, found, entry);
        if found.contains(entry) {
            all.lemma_filter_contains_rev(wanted, entry);
            let i = choose|i: int| 0 <= i < found.len() && found[i] == entry;
            all.lemma_filter_pred(wanted, i);
        }
        if all.contains(entry) && is_asked_for(entry, name, kind, namespace) {
            let i = choose|i: int| 0 <= i < all.len() && all[i] == entry;
            all.lemma_filter_contains(wanted, i);
        }
    }
}

/// A search has one answer: what was found can be sorted in one way only.
pub proof fn search_has_one_answer(
    p: Seq<symbols::EntryModel>,
    q: Seq<symbols::EntryModel>,
    found: Seq<symbols::EntryModel>,
)
    requires
        is_sorted_by_place(p, found),
        is_sorted_by_place(q, found),
    ensures
        p == q,
{
    assert forall|path: Seq<char>, line: u32| p.filter(#[trigger] stands_at(path, line)) == q.filter(
        stands_at(path, line),
    ) by {
        assert(p.filter(stands_at(path, line)) == found.filter(stands_at(path, line)));
    }
    lemma_one_sorted_list(p, q);
}

proof fn lemma_one_sorted_list(p: Seq<symbols::EntryModel>, q: Seq<symbols::EntryModel>)
    requires
        is_sorted_by_place(p, q),
        is_sorted_by_place(q, q),
    ensures
        p == q,
    decreases p.len(),
{
    if p.len() == 0 {
        if q.len() > 0 {
            lemma_sorted_holds_found(p, q, q[0]);
        }
        assert(p =~= q);
    } else {
        let a = p.last();
        lemma_sorted_holds_found(p, q, a);
        let b = q.last();
        lemma_sorted_holds_found(p, q, b);
        let i = choose|i: int| 0 <= i < q.len() && q[i] == a;
        let j = choose|j: int| 0 <= j < p.len() && p[j] == b;
        if a != b {
            assert(not_behind(q[i], q[q.len() - 1]));
            assert(not_behind(p[j], p[p.len() - 1]));
            lemma_same_place(a, b);
        }
        let here = stands_at(a.path, a.line);
        assert(p =~= p.drop_last().push(a));
        assert(q =~= q.drop_last().push(b));
        p.drop_last().lemma_filter_push(a, here);
        q.drop_last().lemma_filter_push(b, here);
        assert(p.filter(here) == q.filter(here));
        assert(p.filter(here).last() == a);
        assert(q.filter(here).last() == b);
        assert forall|path: Seq<char>, line: u32| p.drop_last().filter(
            #[trigger] stands_at(path, line),
        ) == q.drop_last().filter(stands_at(path, line)) by {
            let at = stands_at(path, line);
            p.drop_last().lemma_filter_push(a, at);
            q.drop_last().lemma_filter_push(b, at);
            assert(p.filter(at) == q.filter(at));
            if at(a) {
                assert(p.filter(at).drop_last() =~= p.drop_last().filter(at));
                assert(q.filter(at).drop_last() =~= q.drop_last().filter(at));
            }
        }
        lemma_one_sorted_list(p.drop_last(), q.drop_last());
    }
}

/// Two filters one after the other are one filter that asks for both.
proof fn lemma_filter_twice<A>(
    s: Seq<A>,
    first: spec_fn(A) -> bool,
    second: spec_fn(A) -> bool,
    both: spec_fn(A) -> bool,
)
    requires
        forall|x: A| #[trigger] both(x) <==> first(x) && second(x),
    ensures
        s.filter(first).filter(second) == s.filter(both),
    decreases s.len(),
{
    if s.len() == 0 {
        s.lemma_filter_len(first);
        s.filter(first).lemma_filter_len(second);
        s.lemma_filter_len(both);
        assert(s.filter(first).filter(second) =~= s.filter(both));
    } else {
        let rest = s.drop_last();
        let x = s.last();
        lemma_filter_twice(rest, first, second, both);
        assert(s =~= rest.push(x));
        rest.lemma_filter_push(x, first);
        rest.lemma_filter_push(x, both);
        rest.filter(first).lemma_filter_push(x, second);
        assert(both(x) <==> first(x) && second(x));
    }
}

/// What a filter takes of a sorted list is sorted.
proof fn lemma_filter_keeps_places(s: Seq<symbols::EntryModel>, pred: spec_fn(symbols::EntryModel) -> bool)
    requires
        forall|i: int, j: int| 0 <= i < j < s.len() ==> not_behind(s[i], s[j]),
    ensures
        forall|i: int, j: int|
            0 <= i < j < s.filter(pred).len() ==> not_behind(s.filter(pred)[i], s.filter(pred)[j]),
    decreases s.len(),
{
    if s.len() == 0 {
        s.lemma_filter_len(pred);
    } else {
        let rest = s.drop_last();
        let kept = rest.filter(pred);
        lemma_filter_keeps_places(rest, pred);
        assert(s =~= rest.push(s.last()));
        rest.lemma_filter_push(s.last(), pred);
        assert forall|i: int| 0 <= i < kept.len() implies not_behind(#[trigger] kept[i], s.last()) by {
            assert(kept.contains(kept[i]));
            rest.lemma_filter_contains_rev(pred, kept[i]);
            let k = choose|k: int| 0 <= k < rest.len() && rest[k] == kept[i];
            assert(not_behind(s[k], s[s.len() - 1]));
        }
    }
}

/// A search with a kind and a namespace returns what the search by name alone
/// returns, without the symbols that have another kind or namespace, and in the
/// same order.
pub proof fn searches_narrow_down(
    files: Map<Seq<char>, symbols::FileModel>,
    name: Seq<char>,
    kind: Option<Seq<char>>,
    namespace: Option<Seq<char>>,
    hits: Seq<symbols::EntryModel>,
    by_name: Seq<symbols::EntryModel>,
)
    requires
        is_sorted_by_place(hits, asked_for(files, name, kind, namespace)),
        is_sorted_by_place(by_name, asked_for(files, name, None, None)),
    ensures
        hits == by_name.filter(|e: symbols::EntryModel| is_asked_for(e, name, kind, namespace)),
{
    let all = all_symbols(files);
    let named = |e: symbols::EntryModel| is_asked_for(e, name, None, None);
    let wanted = |e: symbols::EntryModel| is_asked_for(e, name, kind, namespace);
    let narrowed = by_name.filter(wanted);
    lemma_filter_twice(all, named, wanted, wanted);
    lemma_filter_keeps_places(by_name, wanted);
    assert forall|path: Seq<char>, line: u32| narrowed.filter(#[trigger] stands_at(path, line))
        == asked_for(files, name, kind, namespace).filter(stands_at(path, line)) by {
        let here = stands_at(path, line);
        let both = |e: symbols::EntryModel| here(e) && wanted(e);
        let found = all.filter(named);
        assert(by_name.filter(here) == found.filter(here));
        lemma_filter_twice(by_name, wanted, here, both);
        lemma_filter_twice(by_name, here, wanted, both);
        lemma_filter_twice(found, wanted, here, both);
        lemma_filter_twice(found, here, wanted, both);
    }
    search_has_one_answer(hits, narrowed, asked_for(files, name, kind, namespace));
}

/// Whether the symbol at position `i` is the first by place: none is before it,
/// and those found earlier stand further on.
pub open spec fn is_first_by_place(found: Seq<symbols::EntryModel>, i: int) -> bool {
    &&& 0 <= i < found.len()
    &&& forall|j: int| 0 <= j < found.len() ==> not_behind(found[i], #[trigger] found[j])
    &&& forall|j: int| 0 <= j < i ==> !not_behind(#[trigger] found[j], found[i])
}

/// The first symbol by place, if anything was found.
pub open spec fn first_by_place(found: Seq<symbols::EntryModel>) -> Option<symbols::EntryModel> {
    if found.len() == 0 {
        None
    } else {
        Some(found[choose|i: int| is_first_by_place(found, i)])
    }
}

/// The first symbol that a filter takes: none before it passes.
proof fn lemma_filter_first<A>(s: Seq<A>, pred: spec_fn(A) -> bool) -> (i: int)
    requires
        s.filter(pred).len() > 0,
    ensures
        0 <= i < s.len(),
        pred(s[i]),
        s[i] == s.filter(pred)[0],
        forall|j: int| 0 <= j < i ==> !pred(#[trigger] s[j]),
    decreases s.len(),
{
    reveal(Seq::filter);
    let rest = s.drop_last();
    if rest.filter(pred).len() > 0 {
        let i = lemma_filter_first(rest, pred);
        assert forall|j: int| 0 <= j < i implies !pred(#[trigger] s[j]) by {
            assert(rest[j] == s[j]);
        }
        i
    } else {
        assert forall|j: int| 0 <= j < rest.len() implies !pred(#[trigger] s[j]) by {
            if pred(s[j]) {
                assert(rest[j] == s[j]);
                rest.lemma_filter_contains(pred, j);
            }
        }
        s.len() - 1
    }
}

/// A sorted list begins with the first symbol by place.
proof fn lemma_sorted_begins(sorted: Seq<symbols::EntryModel>, found: Seq<symbols::EntryModel>)
    requires
        is_sorted_by_place(sorted, found),
    ensures
        first_by_place(found) == if sorted.len() == 0 {
            None
        } else {
            Some(sorted[0])
        },
{
    if sorted.len() == 0 {
        if found.len() > 0 {
            lemma_sorted_holds_found(sorted, found, found[0]);
        }
    } else {
        let first = sorted[0];
        let here = stands_at(first.path, first.line);
        sorted.lemma_filter_contains(here, 0);
        let k = lemma_filter_first(sorted, here);
        assert(k == 0);
        assert(sorted.filter(here) == found.filter(here));
        let i = lemma_filter_first(found, here);
        assert forall|j: int| 0 <= j < found.len() implies not_behind(found[i], #[trigger] found[j]) by {
            lemma_sorted_holds_found(sorted, found, found[j]);
            let m = choose|m: int| 0 <= m < sorted.len() && sorted[m] == found[j];
            if m > 0 {
                assert(not_behind(sorted[0], sorted[m]));
            }
        }
        assert forall|j: int| 0 <= j < i implies !not_behind(#[trigger] found[j], found[i]) by {
            if not_behind(found[j], found[i]) {
                lemma_same_place(found[j], found[i]);
                assert(here(found[j]));
            }
        }
        assert(is_first_by_place(found, i));
        let c = choose|c: int| is_first_by_place(found, c);
        assert(is_first_by_place(found, c));
        assert(not_behind(found[i], found[c]));
        assert(not_behind(found[c], found[i]));
        assert(c == i);
    }
}

/// If anything was found, there is a first symbol by place.
proof fn lemma_has_first_by_place(found: Seq<symbols::EntryModel>) -> (i: int)
    requires
        found.len() > 0,
    ensures
        is_first_by_place(found, i),
    decreases found.len(),
{
    let last = found.len() - 1;
    if last == 0 {
        0
    } else {
        let rest = found.drop_last();
        let i = lemma_has_first_by_place(rest);
        assert forall|j: int| 0 <= j < last implies not_behind(found[i], #[trigger] found[j]) by {
            assert(rest[j] == found[j]);
        }
        if not_behind(found[i], found[last]) {
            assert forall|j: int| 0 <= j < i implies !not_behind(#[trigger] found[j], found[i]) by {
                assert(rest[j] == found[j]);
            }
            i
        } else {
            order::order_is_total(found[i].path, found[last].path);
            assert forall|j: int| 0 <= j < found.len() implies not_behind(found[last], #[trigger] found[j]) by {
                if j < last {
                    lemma_places_chain(found[last], found[i], found[j]);
                }
            }
            assert forall|j: int| 0 <= j < last implies !not_behind(#[trigger] found[j], found[last]) by {
                if not_behind(found[j], found[last]) {
                    lemma_places_chain(found[i], found[j], found[last]);
                }
            }
            last
        }
    }
}

/// The first symbol by place is one of those found, and none of them stands
/// before it.
pub proof fn first_by_place_is_found(found: Seq<symbols::EntryModel>, entry: symbols::EntryModel)
    requires
        found.contains(entry),
    ensures
        first_by_place(found) is Some,
        found.contains(first_by_place(found)->0),
        not_behind(first_by_place(found)->0, entry),
{
    let i = lemma_has_first_by_place(found);
    let c = choose|c: int| is_first_by_place(found, c);
    assert(is_first_by_place(found, c));
}

/// Finds the first symbol, by path and line, with a name, and with a namespace if
/// it is given.
pub fn find_first(
    index: &ReferenceSymbolIndex,
    name: &str,
    namespace: Option<&str>,
) -> (hit: Option<ReferenceSymbolEntry>)
    ensures
        hit.deep_view() == first_by_place(
            asked_for(index.deep_view().files, name@, None, namespace.deep_view()),
        ),
        hit is None ==> forall|place: Place| #[trigger]
            has_place(index.deep_view().files, place) ==> {
                let entry = at_place(index.deep_view().files, place);
                !(entry.name == name@ && (namespace is Some ==> entry.namespace == Some(
                    namespace->0@,
                )))
            },
        hit is Some ==> {
            &&& hit->0.name@ == name@
            &&& namespace is Some ==> hit->0.namespace is Some && hit->0.namespace->0@
                == namespace->0@
        },
{
    let hits = find_symbol(index, name, None, namespace);
    proof {
        lemma_sorted_begins(
            hits.deep_view(),
            asked_for(index.deep_view().files, name@, None, namespace.deep_view()),
        );
    }
    if hits.len() == 0 {
        proof {
            let places = choose|places: Seq<Place>|
                are_hits(
                    index.deep_view().files,
                    name@,
                    None,
                    namespace.deep_view(),
                    hits.deep_view(),
                    places,
                );
            assert(places.len() == 0);
        }
        None
    } else {
        Some(hits[0].clone())
    }
}

/// The kinds of symbols that can be asked for.
pub open spec fn allowed_kinds() -> Seq<Seq<char>> {
    seq![
        "class"@,
        "interface"@,
        "struct"@,
        "enum"@,
        "method"@,
        "property"@,
        "field"@,
    ]
}

/// Accepts the kinds that can be asked for.
pub fn validate_kind(kind: &str) -> (r: Result<(), ReferenceError>)
    ensures
        r is Ok <==> allowed_kinds().contains(kind@),
        r is Ok <==> (kind@ == "class"@ || kind@ == "interface"@ || kind@ == "struct"@ || kind@
            == "enum"@ || kind@ == "method"@ || kind@ == "property"@ || kind@ == "field"@),
        r matches Err(e) ==> e is KindNotAllowed && e->kind@ == kind@,
        r matches Err(e) ==> e.deep_view() == (error::ErrorModel::KindNotAllowed { kind: kind@ }),
{
    proof {
        let kinds = allowed_kinds();
        assert(kinds[0] == "class"@);
        assert(kinds[1] == "interface"@);
        assert(kinds[2] == "struct"@);
        assert(kinds[3] == "enum"@);
        assert(kinds[4] == "method"@);
        assert(kinds[5] == "property"@);
        assert(kinds[6] == "field"@);
    }
    if same_text(kind, "class") || same_text(kind, "interface") || same_text(kind, "struct")
        || same_text(kind, "enum") || same_text(kind, "method") || same_text(kind, "property")
        || same_text(kind, "field") {
        Ok(())
    } else {
        Err(ReferenceError::KindNotAllowed { kind: kind.to_string() })
    }
}

/// The place of a symbol in an index: the key of its file, and its position among
/// the symbols of the file.
pub type Place = (Seq<char>, int);

/// Whether an index has a symbol at a place.
pub open spec fn has_place(files: Map<Seq<char>, symbols::FileModel>, place: Place) -> bool {
    files.contains_key(place.0) && 0 <= place.1 < files[place.0].symbols.len()
}

/// The symbol at a place.
pub open spec fn at_place(files: Map<Seq<char>, symbols::FileModel>, place: Place) -> symbols::EntryModel {
    files[place.0].symbols[place.1]
}

/// Whether a place is before another in an index: in an earlier file, or further up
/// in the same one.
pub open spec fn is_earlier(a: Place, b: Place) -> bool {
    order::precedes(a.0, b.0) || a.0 == b.0 && a.1 < b.1
}

/// The places of the symbols of some files, in order.
proof fn lemma_places_of_keys(
    files: Map<Seq<char>, symbols::FileModel>,
    keys: Seq<Seq<char>>,
) -> (places: Seq<Place>)
    requires
        order::is_ascending(keys),
        forall|i: int| 0 <= i < keys.len() ==> files.contains_key(#[trigger] keys[i]),
    ensures
        ({
            let all = keys.map_values(|key: Seq<char>| files[key].symbols).flatten();
            &&& places.len() == all.len()
            &&& forall|k: int|
                0 <= k < places.len() ==> {
                    &&& has_place(files, #[trigger] places[k])
                    &&& all[k] == at_place(files, places[k])
                    &&& keys.contains(places[k].0)
                }
            &&& forall|k: int, l: int|
                0 <= k < l < places.len() ==> is_earlier(#[trigger] places[k], #[trigger] places[l])
            &&& forall|place: Place|
                keys.contains(place.0) && #[trigger] has_place(files, place) ==> places.contains(place)
        }),
    decreases keys.len(),
{
    let symbols_of = |key: Seq<char>| files[key].symbols;
    let all = keys.map_values(symbols_of).flatten();
    if keys.len() == 0 {
        assert(all =~= Seq::empty());
        Seq::empty()
    } else {
        let rest = keys.drop_last();
        let key = keys.last();
        let here = files[key].symbols;
        assert forall|i: int| 0 <= i < rest.len() implies files.contains_key(#[trigger] rest[i]) by {
            assert(rest[i] == keys[i]);
        }
        let before = lemma_places_of_keys(files, rest);
        let passed = rest.map_values(symbols_of).flatten();
        assert(keys.map_values(symbols_of) =~= rest.map_values(symbols_of).push(here));
        rest.map_values(symbols_of).lemma_flatten_push(here);
        assert(all == passed + here);
        let places = before + Seq::new(here.len(), |i: int| (key, i));
        assert(files.contains_key(keys[keys.len() - 1]));
        assert forall|k: int| 0 <= k < places.len() implies {
            &&& has_place(files, #[trigger] places[k])
            &&& all[k] == at_place(files, places[k])
            &&& keys.contains(places[k].0)
        } by {
            if k < before.len() {
                assert(places[k] == before[k]);
                let i = choose|i: int| 0 <= i < rest.len() && rest[i] == before[k].0;
                assert(keys[i] == before[k].0);
            } else {
                assert(keys[keys.len() - 1] == key);
            }
        }
        assert forall|k: int, l: int| 0 <= k < l < places.len() implies is_earlier(
            #[trigger] places[k],
            #[trigger] places[l],
        ) by {
            if l < before.len() {
                assert(places[k] == before[k] && places[l] == before[l]);
            } else if k < before.len() {
                assert(places[k] == before[k]);
                let i = choose|i: int| 0 <= i < rest.len() && rest[i] == before[k].0;
                assert(order::precedes(keys[i], keys[keys.len() - 1]));
            }
        }
        assert forall|place: Place|
            keys.contains(place.0) && #[trigger] has_place(files, place) implies places.contains(place) by {
            let i = choose|i: int| 0 <= i < keys.len() && keys[i] == place.0;
            if i < rest.len() {
                assert(rest[i] == place.0);
                let k = choose|k: int| 0 <= k < before.len() && before[k] == place;
                assert(places[k] == place);
            } else {
                assert(places[before.len() + place.1] == place);
            }
        }
        places
    }
}

/// The places of the symbols of an index that a filter takes, in order and none
/// left out.
pub proof fn lemma_places_of(
    files: Map<Seq<char>, symbols::FileModel>,
    pred: spec_fn(symbols::EntryModel) -> bool,
) -> (places: Seq<Place>)
    requires
        files.dom().finite(),
    ensures
        places.len() == all_symbols(files).filter(pred).len(),
        forall|k: int|
            0 <= k < places.len() ==> {
                &&& has_place(files, #[trigger] places[k])
                &&& all_symbols(files).filter(pred)[k] == at_place(files, places[k])
                &&& pred(at_place(files, places[k]))
            },
        forall|k: int, l: int|
            0 <= k < l < places.len() ==> is_earlier(#[trigger] places[k], #[trigger] places[l]),
        forall|place: Place|
            #[trigger] has_place(files, place) && pred(at_place(files, place)) ==> places.contains(place),
{
    let keys = order::ascending(files.dom());
    let all = all_symbols(files);
    order::ascending_lists_the_set(files.dom());
    assert forall|i: int| 0 <= i < keys.len() implies files.contains_key(#[trigger] keys[i]) by {
        assert(keys.contains(keys[i]));
    }
    let whole = lemma_places_of_keys(files, keys);
    let taken = lists::lemma_filter_places(all, pred);
    let places = Seq::new(taken.len(), |k: int| whole[taken[k]]);
    assert forall|k: int| 0 <= k < places.len() implies {
        &&& has_place(files, #[trigger] places[k])
        &&& all.filter(pred)[k] == at_place(files, places[k])
        &&& pred(at_place(files, places[k]))
    } by {
        assert(whole[taken[k]] == places[k]);
    }
    assert forall|k: int, l: int| 0 <= k < l < places.len() implies is_earlier(
        #[trigger] places[k],
        #[trigger] places[l],
    ) by {
        assert(taken[k] < taken[l]);
        assert(is_earlier(whole[taken[k]], whole[taken[l]]));
    }
    assert forall|place: Place|
        #[trigger] has_place(files, place) && pred(at_place(files, place)) implies places.contains(place) by {
        assert(keys.contains(place.0));
        let i = choose|i: int| 0 <= i < whole.len() && whole[i] == place;
        assert(all[i] == at_place(files, place));
        let k = choose|k: int| 0 <= k < taken.len() && taken[k] == i;
        assert(places[k] == place);
    }
    places
}

/// Where a symbol belongs in a sorted list: behind those of its own place.
proof fn lemma_sorted_position(
    sorted: Seq<symbols::EntryModel>,
    entry: symbols::EntryModel,
) -> (p: int)
    requires
        forall|i: int, j: int| 0 <= i < j < sorted.len() ==> not_behind(sorted[i], sorted[j]),
    ensures
        0 <= p <= sorted.len(),
        forall|i: int| 0 <= i < p ==> not_behind(#[trigger] sorted[i], entry),
        forall|i: int|
            p <= i < sorted.len() ==> not_behind(entry, #[trigger] sorted[i]) && !not_behind(
                sorted[i],
                entry,
            ),
    decreases sorted.len(),
{
    if sorted.len() == 0 {
        0
    } else {
        let last = sorted.len() - 1;
        if not_behind(sorted[last], entry) {
            assert forall|i: int| 0 <= i < sorted.len() implies not_behind(#[trigger] sorted[i], entry) by {
                if i < last {
                    lemma_places_chain(sorted[i], sorted[last], entry);
                }
            }
            sorted.len() as int
        } else {
            let rest = sorted.drop_last();
            order::order_is_total(sorted[last].path, entry.path);
            assert forall|i: int, j: int| 0 <= i < j < rest.len() implies not_behind(rest[i], rest[j]) by {
                assert(not_behind(sorted[i], sorted[j]));
            }
            let p = lemma_sorted_position(rest, entry);
            assert forall|i: int| 0 <= i < p implies not_behind(#[trigger] sorted[i], entry) by {
                assert(rest[i] == sorted[i]);
            }
            assert forall|i: int| p <= i < sorted.len() implies not_behind(entry, #[trigger] sorted[i])
                && !not_behind(sorted[i], entry) by {
                if i < last {
                    assert(rest[i] == sorted[i]);
                }
            }
            p
        }
    }
}

/// The order in which found symbols are sorted: by path, by line, and as they were
/// found.
proof fn lemma_sorted_order(found: Seq<symbols::EntryModel>) -> (turn: Seq<int>)
    ensures
        turn.len() == found.len(),
        forall|k: int| 0 <= k < turn.len() ==> 0 <= #[trigger] turn[k] < found.len(),
        forall|i: int| 0 <= i < found.len() ==> #[trigger] turn.contains(i),
        forall|k: int, l: int|
            0 <= k < l < turn.len() ==> {
                let (a, b) = (found[#[trigger] turn[k]], found[#[trigger] turn[l]]);
                ||| order::precedes(a.path, b.path)
                ||| a.path == b.path && (a.line < b.line || a.line == b.line && turn[k] < turn[l])
            },
        is_sorted_by_place(turn.map_values(|i: int| found[i]), found),
    decreases found.len(),
{
    if found.len() == 0 {
        let turn = Seq::<int>::empty();
        assert(turn.map_values(|i: int| found[i]) =~= found);
        turn
    } else {
        let rest = found.drop_last();
        let n = rest.len() as int;
        let entry = found.last();
        let before = lemma_sorted_order(rest);
        let sorted = before.map_values(|i: int| rest[i]);
        assert(rest.push(entry) =~= found);
        let p = lemma_sorted_position(sorted, entry);
        lemma_sorted_insert(sorted, rest, entry, p);
        let turn = before.insert(p, n);
        assert(turn.map_values(|i: int| found[i]) =~= sorted.insert(p, entry));
        assert forall|i: int| 0 <= i < found.len() implies #[trigger] turn.contains(i) by {
            if i < n {
                assert(before.contains(i));
                let k = choose|k: int| 0 <= k < before.len() && before[k] == i;
                let k1 = if k < p { k } else { k + 1 };
                assert(turn[k1] == i);
            } else {
                assert(turn[p] == i);
            }
        }
        assert forall|k: int, l: int| 0 <= k < l < turn.len() implies {
            let (a, b) = (found[#[trigger] turn[k]], found[#[trigger] turn[l]]);
            ||| order::precedes(a.path, b.path)
            ||| a.path == b.path && (a.line < b.line || a.line == b.line && turn[k] < turn[l])
        } by {
            let k0 = if k < p { k } else { k - 1 };
            let l0 = if l < p { l } else { l - 1 };
            if k != p && l != p {
                assert(turn[k] == before[k0] && turn[l] == before[l0]);
                assert(found[before[k0]] == rest[before[k0]]);
                assert(found[before[l0]] == rest[before[l0]]);
            } else if k == p {
                assert(turn[l] == before[l0]);
                assert(sorted[l0] == found[turn[l]]);
            } else {
                assert(turn[k] == before[k0]);
                assert(sorted[k0] == found[turn[k]]);
            }
        }
        turn
    }
}

/// Whether `hits` are the symbols at `places`, which are the places of the index
/// whose symbol has the name, and the kind and the namespace if they are given: all
/// of them, each once, ordered by the path and the line of their symbols, and as
/// they stand in the index where both are the same.
pub open spec fn are_hits(
    files: Map<Seq<char>, symbols::FileModel>,
    name: Seq<char>,
    kind: Option<Seq<char>>,
    namespace: Option<Seq<char>>,
    hits: Seq<symbols::EntryModel>,
    places: Seq<Place>,
) -> bool {
    &&& hits.len() == places.len()
    &&& forall|k: int|
        0 <= k < places.len() ==> {
            &&& has_place(files, #[trigger] places[k])
            &&& hits[k] == at_place(files, places[k])
            &&& hits[k].name == name
            &&& kind is Some ==> hits[k].kind == kind->0
            &&& namespace is Some ==> hits[k].namespace == namespace
        }
    &&& forall|k: int, l: int|
        0 <= k < l < places.len() ==> {
            let (a, b) = (at_place(files, #[trigger] places[k]), at_place(files, #[trigger] places[l]));
            ||| order::precedes(a.path, b.path)
            ||| a.path == b.path && a.line < b.line
            ||| a.path == b.path && a.line == b.line && is_earlier(places[k], places[l])
        }
    &&& forall|place: Place| #[trigger]
        has_place(files, place) && at_place(files, place).name == name && (kind is Some ==> at_place(
            files,
            place,
        ).kind == kind->0) && (namespace is Some ==> at_place(files, place).namespace == namespace)
            ==> places.contains(place)
}

/// A search lists the places of the index whose symbols have what was asked for,
/// in order and none left out.
pub proof fn searches_list_places(
    files: Map<Seq<char>, symbols::FileModel>,
    name: Seq<char>,
    kind: Option<Seq<char>>,
    namespace: Option<Seq<char>>,
    hits: Seq<symbols::EntryModel>,
)
    requires
        files.dom().finite(),
        is_sorted_by_place(hits, asked_for(files, name, kind, namespace)),
    ensures
        exists|places: Seq<Place>| are_hits(files, name, kind, namespace, hits, places),
{
    let wanted = |e: symbols::EntryModel| is_asked_for(e, name, kind, namespace);
    let found = all_symbols(files).filter(wanted);
    let at = lemma_places_of(files, wanted);
    let turn = lemma_sorted_order(found);
    search_has_one_answer(hits, turn.map_values(|i: int| found[i]), found);
    let places = Seq::new(turn.len(), |k: int| at[turn[k]]);
    assert forall|k: int| 0 <= k < places.len() implies {
        &&& has_place(files, #[trigger] places[k])
        &&& hits[k] == at_place(files, places[k])
        &&& hits[k].name == name
        &&& kind is Some ==> hits[k].kind == kind->0
        &&& namespace is Some ==> hits[k].namespace == namespace
    } by {
        assert(at[turn[k]] == places[k]);
        assert(wanted(at_place(files, at[turn[k]])));
    }
    assert forall|k: int, l: int| 0 <= k < l < places.len() implies {
        let (a, b) = (at_place(files, #[trigger] places[k]), at_place(files, #[trigger] places[l]));
        ||| order::precedes(a.path, b.path)
        ||| a.path == b.path && a.line < b.line
        ||| a.path == b.path && a.line == b.line && is_earlier(places[k], places[l])
    } by {
        let (x, y) = (turn[k], turn[l]);
        assert(at[x] == places[k] && at[y] == places[l]);
        assert(found[x] == at_place(files, at[x]));
        assert(found[y] == at_place(files, at[y]));
        if x < y {
            assert(is_earlier(at[x], at[y]));
        }
    }
    assert forall|place: Place| #[trigger]
        has_place(files, place) && at_place(files, place).name == name && (kind is Some ==> at_place(
            files,
            place,
        ).kind == kind->0) && (namespace is Some ==> at_place(files, place).namespace == namespace) implies places.contains(
        place,
    ) by {
        assert(wanted(at_place(files, place)));
        let i = choose|i: int| 0 <= i < at.len() && at[i] == place;
        assert(turn.contains(i));
        let k = choose|k: int| 0 <= k < turn.len() && turn[k] == i;
        assert(places[k] == place);
    }
    assert(are_hits(files, name, kind, namespace, hits, places));
}

/// Every hit of a search has the name, and the kind and the namespace if they were
/// given; it is a symbol of the index, and every symbol of the index that has all
/// of these is a hit.
pub proof fn hits_have_what_was_asked_for(
    files: Map<Seq<char>, symbols::FileModel>,
    name: Seq<char>,
    kind: Option<Seq<char>>,
    namespace: Option<Seq<char>>,
    hits: Seq<symbols::EntryModel>,
)
    requires
        files.dom().finite(),
        is_sorted_by_place(hits, asked_for(files, name, kind, namespace)),
    ensures
        forall|k: int|
            0 <= k < hits.len() ==> {
                &&& (#[trigger] hits[k]).name == name
                &&& kind is Some ==> hits[k].kind == kind->0
                &&& namespace is Some ==> hits[k].namespace == namespace
                &&& exists|key: Seq<char>|
                    #[trigger] files.contains_key(key) && files[key].symbols.contains(hits[k])
            },
        forall|key: Seq<char>, i: int|
            files.contains_key(key) && 0 <= i < files[key].symbols.len()
                && (#[trigger] files[key].symbols[i]).name == name && (kind is Some
                ==> files[key].symbols[i].kind == kind->0) && (namespace is Some
                ==> files[key].symbols[i].namespace == namespace) ==> hits.contains(
                files[key].symbols[i],
            ),
        forall|k: int, l: int|
            0 <= k < l < hits.len() ==> {
                ||| order::precedes((#[trigger] hits[k]).path, (#[trigger] hits[l]).path)
                ||| hits[k].path == hits[l].path && hits[k].line <= hits[l].line
            },
{
    searches_list_places(files, name, kind, namespace, hits);
    let places = choose|places: Seq<Place>| are_hits(files, name, kind, namespace, hits, places);
    assert forall|k: int| 0 <= k < hits.len() implies {
        &&& (#[trigger] hits[k]).name == name
        &&& kind is Some ==> hits[k].kind == kind->0
        &&& namespace is Some ==> hits[k].namespace == namespace
        &&& exists|key: Seq<char>|
            #[trigger] files.contains_key(key) && files[key].symbols.contains(hits[k])
    } by {
        assert(has_place(files, places[k]));
        assert(files.contains_key(places[k].0));
        assert(files[places[k].0].symbols[places[k].1] == hits[k]);
    }
    assert forall|key: Seq<char>, i: int|
        files.contains_key(key) && 0 <= i < files[key].symbols.len()
            && (#[trigger] files[key].symbols[i]).name == name && (kind is Some
            ==> files[key].symbols[i].kind == kind->0) && (namespace is Some
            ==> files[key].symbols[i].namespace == namespace) implies hits.contains(
        files[key].symbols[i],
    ) by {
        let place: Place = (key, i);
        assert(has_place(files, place));
        let k = choose|k: int| 0 <= k < places.len() && places[k] == place;
        assert(hits[k] == at_place(files, places[k]));
    }
    assert forall|k: int, l: int| 0 <= k < l < hits.len() implies {
        ||| order::precedes((#[trigger] hits[k]).path, (#[trigger] hits[l]).path)
        ||| hits[k].path == hits[l].path && hits[k].line <= hits[l].line
    } by {
        assert(hits[k] == at_place(files, places[k]));
        assert(hits[l] == at_place(files, places[l]));
    }
}

/// The first symbol with a name, and with a namespace if it is given: there is none
/// exactly if no symbol of the index has them; else it has them, and all others
/// that have them stand behind it by path, by line, or in the index.
pub proof fn first_symbols_are_before_all_others(
    files: Map<Seq<char>, symbols::FileModel>,
    name: Seq<char>,
    namespace: Option<Seq<char>>,
)
    requires
        files.dom().finite(),
    ensures
        match first_by_place(asked_for(files, name, None, namespace)) {
            None => forall|place: Place| #[trigger]
                has_place(files, place) ==> !(at_place(files, place).name == name && (namespace is Some
                    ==> at_place(files, place).namespace == namespace)),
            Some(hit) => exists|first: Place|
                {
                    &&& #[trigger] has_place(files, first)
                    &&& hit == at_place(files, first)
                    &&& hit.name == name
                    &&& namespace is Some ==> hit.namespace == namespace
                    &&& forall|place: Place| #[trigger]
                        has_place(files, place) && at_place(files, place).name == name && (namespace is Some
                            ==> at_place(files, place).namespace == namespace) && place != first ==> {
                            let other = at_place(files, place);
                            ||| order::precedes(hit.path, other.path)
                            ||| hit.path == other.path && hit.line < other.line
                            ||| hit.path == other.path && hit.line == other.line && is_earlier(
                                first,
                                place,
                            )
                        }
                },
        },
{
    let wanted = |e: symbols::EntryModel| is_asked_for(e, name, None, namespace);
    let found = all_symbols(files).filter(wanted);
    let at = lemma_places_of(files, wanted);
    if found.len() == 0 {
        assert forall|place: Place| #[trigger] has_place(files, place) implies !(at_place(files, place).name
            == name && (namespace is Some ==> at_place(files, place).namespace == namespace)) by {
            if wanted(at_place(files, place)) {
                assert(at.contains(place));
            }
        }
    } else {
        let i = lemma_has_first_by_place(found);
        let c = choose|c: int| is_first_by_place(found, c);
        assert(is_first_by_place(found, c));
        let first = at[c];
        let hit = found[c];
        assert(has_place(files, first));
        assert(wanted(at_place(files, first)));
        assert forall|place: Place| #[trigger]
            has_place(files, place) && at_place(files, place).name == name && (namespace is Some
                ==> at_place(files, place).namespace == namespace) && place != first implies {
            let other = at_place(files, place);
            ||| order::precedes(hit.path, other.path)
            ||| hit.path == other.path && hit.line < other.line
            ||| hit.path == other.path && hit.line == other.line && is_earlier(first, place)
        } by {
            assert(wanted(at_place(files, place)));
            let m = choose|m: int| 0 <= m < at.len() && at[m] == place;
            assert(found[m] == at_place(files, at[m]));
            assert(not_behind(found[c], found[m]));
            if m < c {
                assert(!not_behind(found[m], found[c]));
            } else {
                assert(is_earlier(at[c], at[m]));
            }
        }
    }
}

/// A search goes over every symbol of every file.
pub proof fn search_goes_over_every_file(
    files: Map<Seq<char>, symbols::FileModel>,
    entry: symbols::EntryModel,
)
    requires
        files.dom().finite(),
    ensures
        all_symbols(files).contains(entry) <==> exists|key: Seq<char>|
            #[trigger] files.contains_key(key) && files[key].symbols.contains(entry),
{
    let keys = order::ascending(files.dom());
    let lists = keys.map_values(|key: Seq<char>| files[key].symbols);
    order::ascending_lists_the_set(files.dom());
    lemma_flatten_contains(lists, entry);
    if lists.flatten().contains(entry) {
        let i = choose|i: int| 0 <= i < lists.len() && (#[trigger] lists[i]).contains(entry);
        assert(keys.to_set().contains(keys[i]));
        assert(files.contains_key(keys[i]));
    }
    if exists|key: Seq<char>| #[trigger] files.contains_key(key) && files[key].symbols.contains(entry) {
        let key = choose|key: Seq<char>|
            #[trigger] files.contains_key(key) && files[key].symbols.contains(entry);
        assert(keys.to_set().contains(key));
        let i = choose|i: int| 0 <= i < keys.len() && keys[i] == key;
        assert(lists[i].contains(entry));
    }
}

proof fn lemma_flatten_contains<A>(lists: Seq<Seq<A>>, x: A)
    ensures
        lists.flatten().contains(x) <==> exists|i: int|
            0 <= i < lists.len() && (#[trigger] lists[i]).contains(x),
    decreases lists.len(),
{
    if lists.len() == 0 {
        assert(lists.flatten() =~= Seq::empty());
    } else {
        let rest = lists.drop_last();
        let last = lists.last();
        lemma_flatten_contains(rest, x);
        assert(lists =~= rest.push(last));
        rest.lemma_flatten_push(last);
        let whole = rest.flatten() + last;
        assert(lists.flatten() == whole);
        if whole.contains(x) {
            let k = choose|k: int| 0 <= k < whole.len() && whole[k] == x;
            if k < rest.flatten().len() {
                assert(rest.flatten()[k] == x);
                let i = choose|i: int| 0 <= i < rest.len() && (#[trigger] rest[i]).contains(x);
                assert(lists[i].contains(x));
            } else {
                assert(last[k - rest.flatten().len()] == x);
                assert(lists[lists.len() - 1].contains(x));
            }
        }
        if exists|i: int| 0 <= i < lists.len() && (#[trigger] lists[i]).contains(x) {
            let i = choose|i: int| 0 <= i < lists.len() && (#[trigger] lists[i]).contains(x);
            if i < rest.len() {
                assert(rest[i].contains(x));
                let k = choose|k: int| 0 <= k < rest.flatten().len() && rest.flatten()[k] == x;
                assert(whole[k] == x);
            } else {
                let k = choose|k: int| 0 <= k < last.len() && last[k] == x;
                assert(whole[rest.flatten().len() + k] == x);
            }
        }
    }
}

} // verus!
