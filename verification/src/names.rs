//! Qualified names: a namespace, a dot and a name.
use vstd::prelude::*;
use vstd::string::*;

verus! {

/// The name qualified by a namespace.
pub open spec fn qualified(namespace: Seq<char>, name: Seq<char>) -> Seq<char> {
    namespace.push('.') + name
}

/// Whether the last dot of a text stands at position `i`.
pub open spec fn is_last_dot(text: Seq<char>, i: int) -> bool {
    &&& 0 <= i < text.len()
    &&& text[i] == '.'
    &&& forall|j: int| i < j < text.len() ==> text[j] != '.'
}

/// A qualified name taken apart at its last dot: the name, and the namespace if
/// there is a dot.
pub open spec fn split_name(fqn: Seq<char>) -> (Seq<char>, Option<Seq<char>>) {
    if fqn.contains('.') {
        let i = choose|i: int| is_last_dot(fqn, i);
        (fqn.skip(i + 1), Some(fqn.take(i)))
    } else {
        (fqn, None)
    }
}

/// The last dot stands in one place.
proof fn lemma_last_dot(text: Seq<char>, i: int)
    requires
        is_last_dot(text, i),
    ensures
        text.contains('.'),
        split_name(text) == (text.skip(i + 1), Some(text.take(i))),
{
    let j = choose|j: int| is_last_dot(text, j);
    assert(is_last_dot(text, j));
    assert(i == j);
}

proof fn lemma_has_last_dot(text: Seq<char>)
    requires
        text.contains('.'),
    ensures
        exists|i: int| is_last_dot(text, i),
    decreases text.len(),
{
    if text.last() == '.' {
        assert(is_last_dot(text, text.len() - 1));
    } else {
        let rest = text.drop_last();
        let k = choose|k: int| 0 <= k < text.len() && text[k] == '.';
        assert(rest[k] == '.');
        lemma_has_last_dot(rest);
        let i = choose|i: int| is_last_dot(rest, i);
        assert forall|j: int| i < j < text.len() implies text[j] != '.' by {
            if j < rest.len() {
                assert(rest[j] != '.');
            }
        }
        assert(is_last_dot(text, i));
    }
}

/// Taking a name apart loses nothing: the parts, qualified again, are the whole,
/// and the name part has no dot.
pub proof fn split_parts_rejoin(fqn: Seq<char>)
    ensures
        !split_name(fqn).0.contains('.'),
        match split_name(fqn).1 {
            Some(namespace) => qualified(namespace, split_name(fqn).0) == fqn,
            None => split_name(fqn).0 == fqn,
        },
        split_name(fqn).1 is Some <==> fqn.contains('.'),
        split_name(fqn).1 matches Some(namespace) ==> namespace + seq!['.'] + split_name(fqn).0 == fqn,
{
    if fqn.contains('.') {
        lemma_has_last_dot(fqn);
        let i = choose|i: int| is_last_dot(fqn, i);
        lemma_last_dot(fqn, i);
        let name = fqn.skip(i + 1);
        assert(qualified(fqn.take(i), name) =~= fqn);
        assert(fqn.take(i) + seq!['.'] + name =~= fqn);
        if name.contains('.') {
            let k = choose|k: int| 0 <= k < name.len() && name[k] == '.';
            assert(fqn[i + 1 + k] == '.');
        }
    }
}

/// A name without a dot, qualified, comes apart into the same two parts.
pub proof fn qualified_names_come_apart(namespace: Seq<char>, name: Seq<char>)
    requires
        !name.contains('.'),
    ensures
        split_name(qualified(namespace, name)) == (name, Some(namespace)),
{
    let fqn = qualified(namespace, name);
    let i = namespace.len() as int;
    assert forall|j: int| i < j < fqn.len() implies fqn[j] != '.' by {
        assert(fqn[j] == name[j - i - 1]);
    }
    assert(is_last_dot(fqn, i));
    lemma_last_dot(fqn, i);
    assert(fqn.skip(i + 1) =~= name);
    assert(fqn.take(i) =~= namespace);
}

/// Writes a qualified name.
pub fn qualify(namespace: &str, name: &str) -> (r: String)
    ensures
        r@ == qualified(namespace@, name@),
        r@ == namespace@ + seq!['.'] + name@,
{
    let mut text = namespace.to_string();
    text.append(".");
    text.append(name);
    proof {
        reveal_strlit(".");
        assert(text@ =~= qualified(namespace@, name@));
        assert(text@ =~= namespace@ + seq!['.'] + name@);
    }
    text
}

/// Takes a qualified name apart at its last dot.
pub fn split_fqn(fqn: &str) -> (r: (&str, Option<String>))
    ensures
        (r.0@, r.1.deep_view()) == split_name(fqn@),
        r.1 is None <==> !fqn@.contains('.'),
        r.1 is None ==> r.0@ == fqn@,
        r.1 is Some ==> !r.0@.contains('.') && r.1->0@ + seq!['.'] + r.0@ == fqn@,
{
    proof {
        split_parts_rejoin(fqn@);
        if fqn@.contains('.') {
            let (name, namespace) = split_name(fqn@);
            assert(qualified(namespace->0, name) =~= namespace->0 + seq!['.'] + name);
        }
    }
    let len = fqn.unicode_len();
    let mut chars = fqn.chars();
    let mut dot: Option<usize> = None;
    let mut i: usize = 0;
    assert(fqn@.skip(0) =~= fqn@);
    while i < len
        invariant
            i <= len == fqn@.len(),
            vstd::std_specs::iter::IteratorSpec::remaining(&chars) == fqn@.skip(i as int),
            match dot {
                Some(d) => d < i && fqn@[d as int] == '.' && forall|j: int|
                    d < j < i ==> fqn@[j] != '.',
                None => forall|j: int| 0 <= j < i ==> fqn@[j] != '.',
            },
        decreases len - i,
    {
        match chars.next() {
            Some(c) => {
                assert(fqn@.skip(i as int)[0] == fqn@[i as int]);
                if c == '.' {
                    dot = Some(i);
                }
            },
            None => {},
        }
        assert(fqn@.skip(i as int).drop_first() =~= fqn@.skip(i + 1));
        i += 1;
    }
    match dot {
        Some(d) => {
            proof {
                assert(is_last_dot(fqn@, d as int));
                lemma_last_dot(fqn@, d as int);
                assert(fqn@.subrange(d + 1, len as int) =~= fqn@.skip(d + 1));
                assert(fqn@.subrange(0, d as int) =~= fqn@.take(d as int));
            }
            let name = fqn.substring_char(d + 1, len);
            let namespace = fqn.substring_char(0, d).to_string();
            (name, Some(namespace))
        },
        None => (fqn, None),
    }
}

} // verus!
