//! Taking the declared types out of a C# source text.
use crate::find;
use crate::lists;
use crate::names;
use crate::names::qualify;
use crate::symbols;
use crate::symbols::{copy_option, ReferenceSymbolEntry};
use crate::text;
use crate::text::line_number;
use vstd::prelude::*;

verus! {

/// The first namespace declaration; group 1 is the name.
pub const NAMESPACE_PATTERN: &'static str =
    r"(?m)^\s*namespace\s+([A-Za-z_][A-Za-z0-9_.]*)";

/// A type declaration with the attributes and modifiers before it; group 1 is the
/// kind, group 2 the name.
pub const TYPE_PATTERN: &'static str =
    r"(?m)^[ \t]*(?:\[[^\]]*\][ \t]*)*(?:(?:public|internal|protected|private|static|abstract|sealed|partial|readonly)[ \t]+)*(class|interface|struct|enum)[ \t]+([A-Za-z_][A-Za-z0-9_]*)";

/// What a group of a pattern matched: the byte at which it begins, and the text.
#[derive(Debug, Clone, PartialEq, Eq)]
pub struct GroupMatch {
    pub start: usize,
    pub text: String,
}

/// What a [`GroupMatch`] stands for.
pub struct GroupModel {
    pub start: usize,
    pub text: Seq<char>,
}

impl DeepView for GroupMatch {
    type V = GroupModel;

    open spec fn deep_view(&self) -> GroupModel {
        GroupModel { start: self.start, text: self.text@ }
    }
}

/// Whether a group stands in a text where it says.
pub open spec fn stands_in(group: GroupModel, content: Seq<char>) -> bool {
    let bytes = vstd::utf8::encode_utf8(content);
    let part = vstd::utf8::encode_utf8(group.text);
    &&& group.start + part.len() <= bytes.len()
    &&& bytes.subrange(group.start as int, group.start + part.len()) == part
}

/// Whether the groups of a match are in order: group 0, the whole match, is
/// there, and each group that took part stands in the text where it says.
pub open spec fn is_match_in(groups: Seq<Option<GroupModel>>, content: Seq<char>) -> bool {
    &&& groups.len() > 0
    &&& groups[0] is Some
    &&& forall|i: int| 0 <= i < groups.len() && (#[trigger] groups[i]) is Some ==> stands_in(groups[i]->0, content)
}

/// Whether a character can stand in an identifier.
pub open spec fn is_word_char(c: char) -> bool {
    'A' <= c <= 'Z' || 'a' <= c <= 'z' || '0' <= c <= '9' || c == '_'
}

/// Whether a text is an identifier: word characters, the first not a digit.
pub open spec fn is_identifier(name: Seq<char>) -> bool {
    &&& name.len() > 0
    &&& !('0' <= name[0] <= '9')
    &&& forall|i: int| 0 <= i < name.len() ==> is_word_char(#[trigger] name[i])
}

/// There is no dot in an identifier.
pub proof fn identifiers_have_no_dot(name: Seq<char>)
    requires
        is_identifier(name),
    ensures
        !name.contains('.'),
{
    if name.contains('.') {
        let k = choose|k: int| 0 <= k < name.len() && name[k] == '.';
        assert(is_word_char(name[k]));
    }
}

/// Whether a text is one of the four kinds of type declarations.
pub open spec fn is_type_kind(kind: Seq<char>) -> bool {
    kind == "class"@ || kind == "interface"@ || kind == "struct"@ || kind == "enum"@
}

/// The declarations that are looked for: at the start of a line, a namespace with
/// its name, or a class, interface, struct or enum with its attributes, its
/// modifiers and its name.
pub proof fn declarations_looked_for()
    ensures
        NAMESPACE_PATTERN@ == r"(?m)^\s*namespace\s+([A-Za-z_][A-Za-z0-9_.]*)"@,
        TYPE_PATTERN@
            == r"(?m)^[ \t]*(?:\[[^\]]*\][ \t]*)*(?:(?:public|internal|protected|private|static|abstract|sealed|partial|readonly)[ \t]+)*(class|interface|struct|enum)[ \t]+([A-Za-z_][A-Za-z0-9_]*)"@,
{
}

/// Whether the groups are those of [`TYPE_PATTERN`].
pub open spec fn declares_type(groups: Seq<Option<GroupModel>>) -> bool {
    &&& groups.len() == 3
    &&& groups[1] is Some
    &&& is_type_kind(groups[1]->0.text)
    &&& groups[2] is Some
    &&& is_identifier(groups[2]->0.text)
}

/// Whether the byte at `start` of a text is the first of a line.
pub open spec fn begins_line(content: Seq<char>, start: int) -> bool {
    start == 0 || vstd::utf8::encode_utf8(content)[start - 1] == 10u8
}

/// Whether a match is another one moved by one byte: the same groups took part,
/// with the same texts, each one byte further on.
pub open spec fn is_moved(groups: Seq<Option<GroupModel>>, other: Seq<Option<GroupModel>>) -> bool {
    &&& groups.len() == other.len()
    &&& forall|k: int|
        0 <= k < groups.len() ==> match (#[trigger] groups[k], #[trigger] other[k]) {
            (Some(group), Some(from)) => group.text == from.text && group.start == from.start + 1,
            (None, None) => true,
            _ => false,
        }
}

/// Whether the matches are other ones moved by one byte.
pub open spec fn are_moved(
    matches: Seq<Seq<Option<GroupModel>>>,
    others: Seq<Seq<Option<GroupModel>>>,
) -> bool {
    &&& matches.len() == others.len()
    &&& forall|i: int| 0 <= i < matches.len() ==> is_moved(#[trigger] matches[i], #[trigger] others[i])
}

/// The text of a group, if there is such a group and it took part.
pub open spec fn group_text(groups: Seq<Option<GroupModel>>, i: int) -> Option<Seq<char>> {
    if i < groups.len() && groups[i] is Some {
        Some(groups[i]->0.text)
    } else {
        None
    }
}

/// The text of group 1 of a match, if there is a match and the group took part.
pub open spec fn first_group(found: Option<Seq<Option<GroupModel>>>) -> Option<Seq<char>> {
    match found {
        Some(groups) => group_text(groups, 1),
        None => None,
    }
}

/// The groups of the first match of a pattern in a text, as `regex` finds it.
pub uninterp spec fn regex_captures(pattern: Seq<char>, content: Seq<char>) -> Option<Seq<Option<GroupModel>>>;

/// The groups of each match of a pattern in a text, as `regex` finds them.
pub uninterp spec fn regex_captures_iter(pattern: Seq<char>, content: Seq<char>) -> Seq<Seq<Option<GroupModel>>>;

/// Compiles one of the two patterns with `regex::Regex::new` and calls
/// `Regex::captures`. Both patterns are valid, so that compiling does not fail.
///
/// Believed of it: the groups depend on the pattern and the text alone, group 0
/// took part, and every group stands in the text where it says. The white space
/// before a namespace declaration may run over newlines, so that a blank line
/// before the text does not change which name is found first.
#[verifier::external_body]
fn captures(pattern: &str, content: &str) -> (r: Option<Vec<Option<GroupMatch>>>)
    requires
        pattern@ == NAMESPACE_PATTERN@ || pattern@ == TYPE_PATTERN@,
    ensures
        r.deep_view() == regex_captures(pattern@, content@),
        r matches Some(groups) ==> is_match_in(groups.deep_view(), content@),
        pattern@ == NAMESPACE_PATTERN@ ==> forall|rest: Seq<char>|
            content@ == text::after_blank_line(rest) ==> first_group(r.deep_view()) == first_group(
                #[trigger] regex_captures(pattern@, rest),
            ),
{
    regex::Regex::new(pattern)
        .expect("the pattern compiles")
        .captures(content)
        .map(|found| {
            found
                .iter()
                .map(|group| group.map(|m| GroupMatch { start: m.start(), text: m.as_str().to_string() }))
                .collect()
        })
}

/// Compiles one of the two patterns with `regex::Regex::new` and calls
/// `Regex::captures_iter`. Both patterns are valid, so that compiling does not
/// fail.
///
/// Believed of it: the groups depend on the pattern and the text alone; in each
/// match group 0 took part and every group stands in the text where it says; the
/// matches begin one behind the other, each at the start of a line, as `^` in
/// multi-line mode demands; and in a match of [`TYPE_PATTERN`] the groups are a
/// kind and an identifier, as the pattern has them. No match of it begins with a
/// newline, and whether one begins at the start of a line does not depend on what
/// stands before the line, so that a blank line before the text moves the matches
/// by one byte.
#[verifier::external_body]
fn captures_iter(pattern: &str, content: &str) -> (r: Vec<Vec<Option<GroupMatch>>>)
    requires
        pattern@ == NAMESPACE_PATTERN@ || pattern@ == TYPE_PATTERN@,
    ensures
        r.deep_view() == regex_captures_iter(pattern@, content@),
        forall|i: int| 0 <= i < r@.len() ==> is_match_in(#[trigger] r.deep_view()[i], content@),
        forall|i: int, j: int|
            0 <= i < j < r@.len() ==> (#[trigger] r.deep_view()[i])[0]->0.start
                < (#[trigger] r.deep_view()[j])[0]->0.start,
        forall|i: int|
            0 <= i < r@.len() ==> begins_line(
                content@,
                (#[trigger] r.deep_view()[i])[0]->0.start as int,
            ),
        pattern@ == TYPE_PATTERN@ ==> forall|i: int|
            0 <= i < r@.len() ==> declares_type(#[trigger] r.deep_view()[i]),
        pattern@ == TYPE_PATTERN@ ==> forall|rest: Seq<char>|
            content@ == text::after_blank_line(rest) ==> are_moved(
                r.deep_view(),
                #[trigger] regex_captures_iter(pattern@, rest),
            ),
{
    regex::Regex::new(pattern)
        .expect("the pattern compiles")
        .captures_iter(content)
        .map(|found| {
            found
                .iter()
                .map(|group| group.map(|m| GroupMatch { start: m.start(), text: m.as_str().to_string() }))
                .collect()
        })
        .collect()
}

/// The text of a group, empty where there is none.
pub open spec fn group_text_or_empty(groups: Seq<Option<GroupModel>>, i: int) -> Seq<char> {
    match group_text(groups, i) {
        Some(text) => text,
        None => Seq::empty(),
    }
}

/// Tells the text of a group.
pub fn text_of_group(groups: &Vec<Option<GroupMatch>>, i: usize) -> (r: Option<String>)
    ensures
        r.deep_view() == group_text(groups.deep_view(), i as int),
        r is Some <==> i < groups@.len() && groups@[i as int] is Some,
        r is Some ==> r->0@ == groups@[i as int]->0.text@,
{
    if i < groups.len() {
        assert(groups.deep_view()[i as int] == groups@[i as int].deep_view());
        match &groups[i] {
            Some(group) => Some(group.text.clone()),
            None => None,
        }
    } else {
        None
    }
}

/// The symbol that a match declares.
pub open spec fn symbol_of(
    content: Seq<char>,
    rel_path: Seq<char>,
    namespace: Option<Seq<char>>,
    groups: Seq<Option<GroupModel>>,
) -> symbols::EntryModel {
    let name = group_text_or_empty(groups, 2);
    symbols::EntryModel {
        path: rel_path,
        name,
        kind: group_text_or_empty(groups, 1),
        line: text::line_number_at(content, groups[0]->0.start as int),
        namespace,
        container: None,
        fqn: match namespace {
            Some(namespace) => Some(names::qualified(namespace, name)),
            None => None,
        },
    }
}

/// Whether a match names what it declares.
pub open spec fn is_named(groups: Seq<Option<GroupModel>>) -> bool {
    group_text_or_empty(groups, 2).len() > 0
}

/// The symbols that the matches declare: one for each match with a name.
pub open spec fn symbols_of(
    content: Seq<char>,
    rel_path: Seq<char>,
    namespace: Option<Seq<char>>,
    matches: Seq<Seq<Option<GroupModel>>>,
) -> Seq<symbols::EntryModel> {
    matches.filter(|groups: Seq<Option<GroupModel>>| is_named(groups)).map_values(
        |groups: Seq<Option<GroupModel>>| symbol_of(content, rel_path, namespace, groups),
    )
}

/// Whether `kept` are the positions of the matches that have a name, in order, and
/// `found` are the symbols that these declare: with the path of the file, the name
/// and the kind as they were matched, the line on which the match begins, and the
/// namespace, by which the name is qualified.
pub open spec fn are_declared(
    content: Seq<char>,
    rel_path: Seq<char>,
    namespace: Option<Seq<char>>,
    matches: Seq<Seq<Option<GroupModel>>>,
    found: Seq<symbols::EntryModel>,
    kept: Seq<int>,
) -> bool {
    &&& found.len() == kept.len()
    &&& forall|k: int|
        0 <= k < kept.len() ==> {
            let groups = matches[#[trigger] kept[k]];
            let start = groups[0]->0.start as int;
            &&& 0 <= kept[k] < matches.len()
            &&& groups.len() > 2
            &&& groups[2] is Some
            &&& groups[2]->0.text.len() > 0
            &&& found[k].path == rel_path
            &&& found[k].name == groups[2]->0.text
            &&& found[k].kind == if groups[1] is Some {
                groups[1]->0.text
            } else {
                Seq::empty()
            }
            &&& found[k].line == (vstd::utf8::encode_utf8(content).take(start).filter(
                |b: u8| b == 10u8,
            ).len() + 1) % 0x1_0000_0000
            &&& found[k].namespace == namespace
            &&& found[k].container is None
            &&& namespace is None ==> found[k].fqn is None
            &&& namespace is Some ==> found[k].fqn == Some(
                namespace->0 + seq!['.'] + groups[2]->0.text,
            )
        }
    &&& forall|k: int, l: int| 0 <= k < l < kept.len() ==> kept[k] < kept[l]
    &&& forall|i: int|
        0 <= i < matches.len() && (#[trigger] matches[i]).len() > 2 && matches[i][2] is Some
            && matches[i][2]->0.text.len() > 0 ==> kept.contains(i)
}

/// Each match with a name becomes a symbol that has what was matched.
pub proof fn named_matches_become_symbols(
    content: Seq<char>,
    rel_path: Seq<char>,
    namespace: Option<Seq<char>>,
    matches: Seq<Seq<Option<GroupModel>>>,
)
    ensures
        exists|kept: Seq<int>|
            are_declared(
                content,
                rel_path,
                namespace,
                matches,
                symbols_of(content, rel_path, namespace, matches),
                kept,
            ),
{
    let named = |groups: Seq<Option<GroupModel>>| is_named(groups);
    let found = symbols_of(content, rel_path, namespace, matches);
    let kept = lists::lemma_filter_places(matches, named);
    assert forall|k: int| 0 <= k < kept.len() implies {
        let groups = matches[#[trigger] kept[k]];
        let start = groups[0]->0.start as int;
        &&& 0 <= kept[k] < matches.len()
        &&& groups.len() > 2
        &&& groups[2] is Some
        &&& groups[2]->0.text.len() > 0
        &&& found[k].path == rel_path
        &&& found[k].name == groups[2]->0.text
        &&& found[k].kind == if groups[1] is Some {
            groups[1]->0.text
        } else {
            Seq::empty()
        }
        &&& found[k].line == (vstd::utf8::encode_utf8(content).take(start).filter(
            |b: u8| b == 10u8,
        ).len() + 1) % 0x1_0000_0000
        &&& found[k].namespace == namespace
        &&& found[k].container is None
        &&& namespace is None ==> found[k].fqn is None
        &&& namespace is Some ==> found[k].fqn == Some(namespace->0 + seq!['.'] + groups[2]->0.text)
    } by {
        let groups = matches[kept[k]];
        assert(named(groups));
        assert(found[k] == symbol_of(content, rel_path, namespace, groups));
        if namespace is Some {
            assert(names::qualified(namespace->0, groups[2]->0.text) =~= namespace->0 + seq!['.']
                + groups[2]->0.text);
        }
    }
    assert forall|i: int|
        0 <= i < matches.len() && (#[trigger] matches[i]).len() > 2 && matches[i][2] is Some
            && matches[i][2]->0.text.len() > 0 implies kept.contains(i) by {
        assert(named(matches[i]));
    }
    assert(are_declared(content, rel_path, namespace, matches, found, kept));
}

/// The symbols of a source text are the type declarations in it, in the namespace
/// that it declares first.
pub proof fn texts_hold_what_they_declare(
    content: Seq<char>,
    rel_path: Seq<char>,
    namespace: Option<Seq<char>>,
)
    requires
        ({
            let space = regex_captures(NAMESPACE_PATTERN@, content);
            namespace == if space is Some && space->0.len() > 1 && space->0[1] is Some {
                Some(space->0[1]->0.text)
            } else {
                None
            }
        }),
    ensures
        exists|kept: Seq<int>|
            are_declared(
                content,
                rel_path,
                namespace,
                regex_captures_iter(TYPE_PATTERN@, content),
                extracted(content, rel_path),
                kept,
            ),
{
    assert(namespace == namespace_in(content));
    let matches = regex_captures_iter(TYPE_PATTERN@, content);
    let found = extracted(content, rel_path);
    assert(found == symbols_of(content, rel_path, namespace, matches));
    named_matches_become_symbols(content, rel_path, namespace, matches);
    let kept = choose|kept: Seq<int>|
        are_declared(content, rel_path, namespace, matches, found, kept);
    assert(are_declared(content, rel_path, namespace, matches, found, kept));
}

/// A group stands for its start and its text.
pub proof fn groups_stand_for_their_fields(group: GroupMatch)
    ensures
        group.deep_view().start == group.start,
        group.deep_view().text == group.text@,
{
}

/// Makes a symbol of each match that has a name.
pub fn symbols_from_matches(
    content: &str,
    rel_path: &str,
    namespace: &Option<String>,
    matches: &Vec<Vec<Option<GroupMatch>>>,
) -> (found: Vec<ReferenceSymbolEntry>)
    requires
        forall|i: int|
            0 <= i < matches@.len() && is_named(#[trigger] matches.deep_view()[i]) ==> {
                &&& matches.deep_view()[i].len() > 0
                &&& matches.deep_view()[i][0] is Some
                &&& matches.deep_view()[i][0]->0.start <= vstd::utf8::encode_utf8(content@).len()
            },
    ensures
        found.deep_view() == symbols_of(
            content@,
            rel_path@,
            namespace.deep_view(),
            matches.deep_view(),
        ),
        exists|kept: Seq<int>|
            are_declared(
                content@,
                rel_path@,
                namespace.deep_view(),
                matches.deep_view(),
                found.deep_view(),
                kept,
            ),
{
    proof {
        named_matches_become_symbols(
            content@,
            rel_path@,
            namespace.deep_view(),
            matches.deep_view(),
        );
    }
    let ghost all = matches.deep_view();
    let ghost named = |groups: Seq<Option<GroupModel>>| is_named(groups);
    let ghost symbol = |groups: Seq<Option<GroupModel>>|
        symbol_of(content@, rel_path@, namespace.deep_view(), groups);
    let mut found: Vec<ReferenceSymbolEntry> = Vec::new();
    let mut i: usize = 0;
    proof {
        assert(all.take(0).filter(named) =~= Seq::empty());
        assert(found.deep_view() =~= all.take(0).filter(named).map_values(symbol));
    }
    while i < matches.len()
        invariant
            i <= matches@.len(),
            all == matches.deep_view(),
            named == (|groups: Seq<Option<GroupModel>>| is_named(groups)),
            symbol == (|groups: Seq<Option<GroupModel>>|
                symbol_of(content@, rel_path@, namespace.deep_view(), groups)),
            forall|i: int|
                0 <= i < all.len() && is_named(#[trigger] all[i]) ==> {
                    &&& all[i].len() > 0
                    &&& all[i][0] is Some
                    &&& all[i][0]->0.start <= vstd::utf8::encode_utf8(content@).len()
                },
            found.deep_view() == all.take(i as int).filter(named).map_values(symbol),
        decreases matches@.len() - i,
    {
        let groups = &matches[i];
        let ghost model = all[i as int];
        let ghost sofar = found.deep_view();
        proof {
            assert(model == groups.deep_view());
            assert(all.take(i + 1) =~= all.take(i as int).push(model));
            all.take(i as int).lemma_filter_push(model, named);
        }
        let kind = match text_of_group(groups, 1) {
            Some(text) => text,
            None => String::new(),
        };
        let name = match text_of_group(groups, 2) {
            Some(text) => text,
            None => String::new(),
        };
        if !name.as_str().is_empty() {
            assert(model[0] == groups@[0].deep_view());
            if let Some(full) = &groups[0] {
                let line = line_number(content, full.start);
                let fqn = match namespace {
                    Some(namespace) => Some(qualify(namespace.as_str(), name.as_str())),
                    None => None,
                };
                let entry = ReferenceSymbolEntry {
                    path: rel_path.to_string(),
                    name,
                    kind,
                    line,
                    namespace: copy_option(namespace),
                    container: None,
                    fqn,
                };
                proof {
                    assert(entry.deep_view() == symbol(model));
                    assert(all.take(i + 1).filter(named).map_values(symbol) =~= sofar.push(
                        symbol(model),
                    ));
                }
                found.push(entry);
                assert(found.deep_view() =~= sofar.push(symbol(model)));
            }
        }
        i += 1;
    }
    assert(all.take(i as int) =~= all);
    found
}

/// The namespace of a source text: the one that its first namespace declaration
/// names.
pub open spec fn namespace_in(content: Seq<char>) -> Option<Seq<char>> {
    first_group(regex_captures(NAMESPACE_PATTERN@, content))
}

/// The symbols of a source text.
pub open spec fn extracted(content: Seq<char>, rel_path: Seq<char>) -> Seq<symbols::EntryModel> {
    symbols_of(
        content,
        rel_path,
        namespace_in(content),
        regex_captures_iter(TYPE_PATTERN@, content),
    )
}

/// Whether a symbol is one of a file: it has the path of the file, the name of a
/// type, a kind that can be asked for, and, in a namespace, the qualified name
/// that comes apart into its namespace and name.
pub open spec fn is_symbol_of_file(
    entry: symbols::EntryModel,
    rel_path: Seq<char>,
    namespace: Option<Seq<char>>,
) -> bool {
    &&& entry.path == rel_path
    &&& is_identifier(entry.name)
    &&& is_type_kind(entry.kind)
    &&& find::allowed_kinds().contains(entry.kind)
    &&& entry.namespace == namespace
    &&& entry.container is None
    &&& entry.fqn is Some <==> namespace is Some
    &&& entry.fqn matches Some(fqn) ==> names::split_name(fqn) == (entry.name, namespace)
}

/// Whether the lines of symbols increase from one to `last` at most, so that there
/// is no more than one symbol on a line.
pub open spec fn lines_increase(found: Seq<symbols::EntryModel>, last: nat) -> bool {
    &&& forall|i: int| 0 <= i < found.len() ==> 1 <= (#[trigger] found[i]).line <= last
    &&& forall|i: int, j: int|
        0 <= i < j < found.len() ==> (#[trigger] found[i]).line < (#[trigger] found[j]).line
}

/// Whether symbols are other ones moved one line down, with `rel_path` as their
/// path.
pub open spec fn are_one_line_down(
    found: Seq<symbols::EntryModel>,
    others: Seq<symbols::EntryModel>,
    rel_path: Seq<char>,
) -> bool {
    &&& found.len() == others.len()
    &&& forall|i: int|
        0 <= i < found.len() ==> {
            &&& (#[trigger] found[i]).line == (#[trigger] others[i]).line + 1
            &&& found[i] == symbols::EntryModel { path: rel_path, line: found[i].line, ..others[i] }
        }
}

/// Extracts the types that a C# source text declares. All of them are put in the
/// namespace that the text declares first.
pub fn extract_symbols_from_text(content: &str, rel_path: &str) -> (found: Vec<ReferenceSymbolEntry>)
    ensures
        found.deep_view() == extracted(content@, rel_path@),
        // There is a symbol for each declaration.
        found@.len() == regex_captures_iter(TYPE_PATTERN@, content@).len(),
        forall|i: int|
            0 <= i < found@.len() ==> is_symbol_of_file(
                #[trigger] found.deep_view()[i],
                rel_path@,
                namespace_in(content@),
            ),
        // Each has what its declaration says.
        forall|i: int|
            0 <= i < found@.len() ==> {
                let groups = regex_captures_iter(TYPE_PATTERN@, content@)[i];
                let start = groups[0]->0.start as int;
                let namespace = first_group(regex_captures(NAMESPACE_PATTERN@, content@));
                &&& (#[trigger] found@[i]).path@ == rel_path@
                &&& found@[i].kind@ == groups[1]->0.text
                &&& found@[i].name@ == groups[2]->0.text
                &&& found@[i].line == (vstd::utf8::encode_utf8(content@).take(start).filter(
                    |b: u8| b == 10u8,
                ).len() + 1) % 0x1_0000_0000
                &&& found@[i].container is None
                &&& found@[i].namespace.deep_view() == namespace
                &&& namespace is None ==> found@[i].fqn is None
                &&& namespace is Some ==> found@[i].fqn is Some && found@[i].fqn->0@ == namespace->0
                    + seq!['.'] + groups[2]->0.text
            },
        // They come in the order of their lines.
        text::newlines(vstd::utf8::encode_utf8(content@)) < u32::MAX ==> lines_increase(
            found.deep_view(),
            text::newlines(vstd::utf8::encode_utf8(content@)) + 1,
        ),
        // A blank line before a text only moves its symbols down, and the path
        // affects nothing but their path.
        text::newlines(vstd::utf8::encode_utf8(content@)) < u32::MAX ==> forall|
            rest: Seq<char>,
            other_path: Seq<char>,
        |
            content@ == text::after_blank_line(rest) ==> are_one_line_down(
                found.deep_view(),
                #[trigger] extracted(rest, other_path),
                rel_path@,
            ),
{
    let namespace = match captures(NAMESPACE_PATTERN, content) {
        Some(groups) => text_of_group(&groups, 1),
        None => None,
    };
    let matches = captures_iter(TYPE_PATTERN, content);
    let found = symbols_from_matches(content, rel_path, &namespace, &matches);
    proof {
        let all = matches.deep_view();
        let namespace = namespace.deep_view();
        lemma_symbols_of_declarations(content@, rel_path@, namespace, all);
        lemma_filter_all(all, |groups: Seq<Option<GroupModel>>| is_named(groups));
        assert forall|i: int| 0 <= i < found@.len() implies {
            let groups = all[i];
            let start = groups[0]->0.start as int;
            &&& (#[trigger] found@[i]).path@ == rel_path@
            &&& found@[i].kind@ == groups[1]->0.text
            &&& found@[i].name@ == groups[2]->0.text
            &&& found@[i].line == (vstd::utf8::encode_utf8(content@).take(start).filter(
                |b: u8| b == 10u8,
            ).len() + 1) % 0x1_0000_0000
            &&& found@[i].container is None
            &&& found@[i].namespace.deep_view() == namespace
            &&& namespace is None ==> found@[i].fqn is None
            &&& namespace is Some ==> found@[i].fqn is Some && found@[i].fqn->0@ == namespace->0
                + seq!['.'] + groups[2]->0.text
        } by {
            assert(found.deep_view()[i] == found@[i].deep_view());
            assert(declares_type(all[i]));
            assert(found.deep_view()[i] == symbol_of(content@, rel_path@, namespace, all[i]));
            if namespace is Some {
                assert(names::qualified(namespace->0, all[i][2]->0.text) =~= namespace->0 + seq!['.']
                    + all[i][2]->0.text);
            }
        }
        if text::newlines(vstd::utf8::encode_utf8(content@)) < u32::MAX {
            assert forall|rest: Seq<char>, other_path: Seq<char>|
                content@ == text::after_blank_line(rest) implies are_one_line_down(
                found.deep_view(),
                #[trigger] extracted(rest, other_path),
                rel_path@,
            ) by {
                assert(namespace == namespace_in(rest));
                lemma_symbols_move_down(
                    rest,
                    rel_path@,
                    other_path,
                    namespace,
                    all,
                    regex_captures_iter(TYPE_PATTERN@, rest),
                );
            }
        }
    }
    found
}

/// Declarations of types all become symbols of the file.
proof fn lemma_symbols_of_declarations(
    content: Seq<char>,
    rel_path: Seq<char>,
    namespace: Option<Seq<char>>,
    matches: Seq<Seq<Option<GroupModel>>>,
)
    requires
        forall|i: int| 0 <= i < matches.len() ==> is_match_in(#[trigger] matches[i], content),
        forall|i: int| 0 <= i < matches.len() ==> declares_type(#[trigger] matches[i]),
        forall|i: int|
            0 <= i < matches.len() ==> begins_line(content, (#[trigger] matches[i])[0]->0.start as int),
        forall|i: int, j: int|
            0 <= i < j < matches.len() ==> (#[trigger] matches[i])[0]->0.start < (
            #[trigger] matches[j])[0]->0.start,
    ensures
        ({
            let found = symbols_of(content, rel_path, namespace, matches);
            let newlines = text::newlines(vstd::utf8::encode_utf8(content));
            &&& found.len() == matches.len()
            &&& forall|i: int|
                0 <= i < found.len() ==> is_symbol_of_file(#[trigger] found[i], rel_path, namespace)
            &&& newlines < u32::MAX ==> lines_increase(found, newlines + 1)
        }),
{
    let named = |groups: Seq<Option<GroupModel>>| is_named(groups);
    let found = symbols_of(content, rel_path, namespace, matches);
    lemma_filter_all(matches, named);
    assert forall|i: int| 0 <= i < found.len() implies is_symbol_of_file(
        #[trigger] found[i],
        rel_path,
        namespace,
    ) by {
        let groups = matches[i];
        assert(declares_type(groups));
        let entry = found[i];
        assert(entry == symbol_of(content, rel_path, namespace, groups));
        let kinds = find::allowed_kinds();
        assert(kinds[0] == "class"@);
        assert(kinds[1] == "interface"@);
        assert(kinds[2] == "struct"@);
        assert(kinds[3] == "enum"@);
        identifiers_have_no_dot(entry.name);
        if namespace is Some {
            names::qualified_names_come_apart(namespace->0, entry.name);
        }
    }
    let bytes = vstd::utf8::encode_utf8(content);
    if text::newlines(bytes) < u32::MAX {
        assert forall|i: int| 0 <= i < found.len() implies {
            &&& 1 <= (#[trigger] found[i]).line <= text::newlines(bytes) + 1
            &&& found[i].line == text::newlines(bytes.take(matches[i][0]->0.start as int)) + 1
        } by {
            let a = matches[i][0]->0.start as int;
            assert(is_match_in(matches[i], content));
            assert(stands_in(matches[i][0]->0, content));
            text::line_numbers_count_from_one(content, a);
            text::lemma_newlines_grow(bytes, a, bytes.len() as int);
            assert(bytes.take(bytes.len() as int) =~= bytes);
        }
        assert forall|i: int, j: int| 0 <= i < j < found.len() implies (#[trigger] found[i]).line < (
        #[trigger] found[j]).line by {
            let a = matches[i][0]->0.start as int;
            let b = matches[j][0]->0.start as int;
            assert(is_match_in(matches[j], content));
            assert(stands_in(matches[j][0]->0, content));
            assert(begins_line(content, b));
            text::lemma_later_line(bytes, a, b);
        }
    }
}

/// Declarations behind a blank line become the same symbols, one line down.
proof fn lemma_symbols_move_down(
    rest: Seq<char>,
    rel_path: Seq<char>,
    other_path: Seq<char>,
    namespace: Option<Seq<char>>,
    matches: Seq<Seq<Option<GroupModel>>>,
    others: Seq<Seq<Option<GroupModel>>>,
)
    requires
        text::newlines(vstd::utf8::encode_utf8(text::after_blank_line(rest))) < u32::MAX,
        forall|i: int|
            0 <= i < matches.len() ==> is_match_in(
                #[trigger] matches[i],
                text::after_blank_line(rest),
            ),
        forall|i: int| 0 <= i < matches.len() ==> declares_type(#[trigger] matches[i]),
        are_moved(matches, others),
    ensures
        are_one_line_down(
            symbols_of(text::after_blank_line(rest), rel_path, namespace, matches),
            symbols_of(rest, other_path, namespace, others),
            rel_path,
        ),
{
    let content = text::after_blank_line(rest);
    let named = |groups: Seq<Option<GroupModel>>| is_named(groups);
    let found = symbols_of(content, rel_path, namespace, matches);
    let before = symbols_of(rest, other_path, namespace, others);
    assert forall|i: int| 0 <= i < others.len() implies named(#[trigger] others[i]) by {
        assert(is_moved(matches[i], others[i]));
        assert(declares_type(matches[i]));
        assert(matches[i][2] is Some && others[i][2] is Some);
    }
    lemma_filter_all(matches, named);
    lemma_filter_all(others, named);
    text::blank_lines_move_lines_down(rest, 0);
    assert forall|i: int| 0 <= i < found.len() implies {
        &&& (#[trigger] found[i]).line == (#[trigger] before[i]).line + 1
        &&& found[i] == symbols::EntryModel { path: rel_path, line: found[i].line, ..before[i] }
    } by {
        assert(is_match_in(matches[i], content));
        assert(declares_type(matches[i]));
        assert(is_moved(matches[i], others[i]));
        assert(stands_in(matches[i][0]->0, content));
        assert(matches[i][0] is Some && others[i][0] is Some);
        assert(matches[i][1] is Some && others[i][1] is Some);
        assert(matches[i][2] is Some && others[i][2] is Some);
        let a = others[i][0]->0.start as int;
        text::blank_lines_move_lines_down(rest, a);
        text::line_numbers_count_from_one(content, a + 1);
    }
}

/// A filter that takes every element leaves all.
proof fn lemma_filter_all<A>(s: Seq<A>, pred: spec_fn(A) -> bool)
    requires
        forall|i: int| 0 <= i < s.len() ==> pred(#[trigger] s[i]),
    ensures
        s.filter(pred) == s,
    decreases s.len(),
{
    reveal(Seq::filter);
    if s.len() > 0 {
        assert forall|i: int| 0 <= i < s.drop_last().len() implies pred(#[trigger] s.drop_last()[i]) by {
            assert(s.drop_last()[i] == s[i]);
        }
        lemma_filter_all(s.drop_last(), pred);
        assert(s =~= s.drop_last().push(s.last()));
    }
}

} // verus!
