//! What changed between two versions of the sources, symbol by symbol.
use crate::error;
use crate::error::ReferenceError;
use crate::extract;
use crate::find;
use crate::find::find_first;
use crate::hunks;
use crate::hunks::{compute_line_diff, Hunk};
use crate::names;
use crate::names::split_fqn;
use crate::order;
use crate::symbols;
use crate::symbols::{ReferenceSymbolEntry, ReferenceSymbolIndex};
use crate::table::StringTable;
use crate::text::begins_with;
use vstd::prelude::*;

verus! {

/// How many lines of a symbol are compared.
pub const DEFAULT_VIEW_WINDOW: u32 = 30;

/// How many symbols a path diff lists if no other limit is given.
pub const DEFAULT_MAX_SYMBOLS: usize = 50;

/// How the lines of one symbol differ between two versions. The place of the
/// symbol is given for each version that has it.
#[derive(Debug, Clone, PartialEq, Eq)]
pub struct SymbolDiff {
    pub symbol: String,
    pub kind: String,
    pub before_path: Option<String>,
    pub before_line: Option<u32>,
    pub after_path: Option<String>,
    pub after_line: Option<u32>,
    pub hunks: Vec<Hunk>,
}

/// What a [`SymbolDiff`] stands for.
#[verifier::ext_equal]
pub struct SymbolDiffModel {
    pub symbol: Seq<char>,
    pub kind: Seq<char>,
    pub before_path: Option<Seq<char>>,
    pub before_line: Option<u32>,
    pub after_path: Option<Seq<char>>,
    pub after_line: Option<u32>,
    pub hunks: Seq<hunks::HunkModel>,
}

impl DeepView for SymbolDiff {
    type V = SymbolDiffModel;

    open spec fn deep_view(&self) -> SymbolDiffModel {
        SymbolDiffModel {
            symbol: self.symbol@,
            kind: self.kind@,
            before_path: self.before_path.deep_view(),
            before_line: self.before_line,
            after_path: self.after_path.deep_view(),
            after_line: self.after_line,
            hunks: self.hunks.deep_view(),
        }
    }
}

/// A symbol that only one of two versions has.
#[derive(Debug, Clone, PartialEq, Eq)]
pub struct SymbolSummary {
    pub symbol: String,
    pub kind: String,
    pub path: String,
}

/// What a [`SymbolSummary`] stands for.
pub struct SummaryModel {
    pub symbol: Seq<char>,
    pub kind: Seq<char>,
    pub path: Seq<char>,
}

impl DeepView for SymbolSummary {
    type V = SummaryModel;

    open spec fn deep_view(&self) -> SummaryModel {
        SummaryModel { symbol: self.symbol@, kind: self.kind@, path: self.path@ }
    }
}

/// What changed below a path between two versions, and whether the list was cut
/// short.
#[derive(Debug, Clone, PartialEq, Eq)]
pub struct PathDiff {
    pub added: Vec<SymbolSummary>,
    pub removed: Vec<SymbolSummary>,
    pub changed: Vec<SymbolDiff>,
    pub truncated: bool,
}

/// What a [`PathDiff`] stands for.
#[verifier::ext_equal]
pub struct PathDiffModel {
    pub added: Seq<SummaryModel>,
    pub removed: Seq<SummaryModel>,
    pub changed: Seq<SymbolDiffModel>,
    pub truncated: bool,
}

impl DeepView for PathDiff {
    type V = PathDiffModel;

    open spec fn deep_view(&self) -> PathDiffModel {
        PathDiffModel {
            added: self.added.deep_view(),
            removed: self.removed.deep_view(),
            changed: self.changed.deep_view(),
            truncated: self.truncated,
        }
    }
}

impl Default for PathDiff {
    fn default() -> (r: Self)
        ensures
            r.added@ == Seq::<SymbolSummary>::empty(),
            r.removed@ == Seq::<SymbolSummary>::empty(),
            r.changed@ == Seq::<SymbolDiff>::empty(),
            !r.truncated,
    {
        PathDiff { added: Vec::new(), removed: Vec::new(), changed: Vec::new(), truncated: false }
    }
}

/// Whether a function can serve as the view of a version: asked for a file, a
/// first line, counted from one, and the number of lines that are compared, it
/// answers with lines, or with the reason why it cannot. The lines of two answers
/// together have to fit into 32-bit line numbers.
pub open spec fn is_view<V>(view: &V) -> bool where
    V: Fn(&str, u32, u32) -> Result<Vec<String>, String>,
 {
    &&& forall|rel: &str, start: u32|
        1 <= start ==> #[trigger] call_requires(*view, (rel, start, DEFAULT_VIEW_WINDOW))
    &&& forall|rel: &str, start: u32, reply: Result<Vec<String>, String>|
        1 <= start && #[trigger] call_ensures(*view, (rel, start, DEFAULT_VIEW_WINDOW), reply)
            && reply is Ok ==> reply->Ok_0@.len() < u32::MAX / 2
}

/// The first line that is shown of a symbol: the one before it, if there is one.
pub open spec fn excerpt_start(line: u32) -> u32 {
    if line <= 2 {
        1
    } else {
        (line - 1) as u32
    }
}

/// Whether a view gave this answer when it was asked for the lines of a symbol.
pub open spec fn was_shown<V>(
    view: &V,
    path: Seq<char>,
    line: u32,
    reply: Result<Vec<String>, String>,
) -> bool where V: Fn(&str, u32, u32) -> Result<Vec<String>, String> {
    exists|rel: &str|
        rel@ == path && #[trigger] call_ensures(
            *view,
            (rel, excerpt_start(line), DEFAULT_VIEW_WINDOW),
            reply,
        )
}

/// Whether this is the error of a view that could not show the lines of a symbol,
/// with the reason that the view gave.
pub open spec fn is_unreadable<V>(
    view: &V,
    path: Seq<char>,
    line: u32,
    e: error::ErrorModel,
) -> bool where V: Fn(&str, u32, u32) -> Result<Vec<String>, String> {
    exists|cause: String| #[trigger]
        was_shown(view, path, line, Err(cause)) && e == (error::ErrorModel::ExcerptUnreadable {
            path,
            line,
            cause: cause@,
        })
}

/// Reads the lines of a symbol.
pub fn read_excerpt<V>(view: &V, rel_path: &str, line: u32) -> (r: Result<
    Vec<String>,
    ReferenceError,
>) where V: Fn(&str, u32, u32) -> Result<Vec<String>, String>
    requires
        is_view(view),
    ensures
        match r {
            Ok(lines) => was_shown(view, rel_path@, line, Ok(lines)) && lines@.len() < u32::MAX / 2,
            Err(e) => is_unreadable(view, rel_path@, line, e.deep_view()),
        },
        match r {
            Ok(lines) => call_ensures(
                *view,
                (
                    rel_path,
                    if line <= 2 {
                        1u32
                    } else {
                        (line - 1) as u32
                    },
                    30u32,
                ),
                Ok::<Vec<String>, String>(lines),
            ),
            Err(e) => {
                &&& e is ExcerptUnreadable
                &&& e->path@ == rel_path@
                &&& e->line == line
                &&& call_ensures(
                    *view,
                    (
                        rel_path,
                        if line <= 2 {
                            1u32
                        } else {
                            (line - 1) as u32
                        },
                        30u32,
                    ),
                    Err::<Vec<String>, String>(e->cause),
                )
            },
        },
{
    let start: u32 = if line <= 2 {
        1
    } else {
        line - 1
    };
    let reply = view(rel_path, start, DEFAULT_VIEW_WINDOW);
    assert(was_shown(view, rel_path@, line, reply));
    match reply {
        Ok(lines) => Ok(lines),
        Err(cause) => {
            assert(was_shown(view, rel_path@, line, Err(cause)));
            let e = ReferenceError::ExcerptUnreadable { path: rel_path.to_string(), line, cause };
            assert(is_unreadable(view, rel_path@, line, e.deep_view()));
            Err(e)
        },
    }
}

/// Whether these are the lines of a symbol in a version: those that the view
/// showed, or none where the version does not have the symbol.
pub open spec fn is_excerpt<V>(
    view: &V,
    hit: Option<symbols::EntryModel>,
    lines: hunks::Lines,
) -> bool where V: Fn(&str, u32, u32) -> Result<Vec<String>, String> {
    match hit {
        Some(entry) => exists|shown: Vec<String>|
            #[trigger] was_shown(view, entry.path, entry.line, Ok(shown)) && shown.deep_view() == lines,
        None => lines.len() == 0,
    }
}

/// Whether a view shows the same lines whenever it is asked for the same symbol.
pub open spec fn is_steady<V>(view: &V) -> bool where
    V: Fn(&str, u32, u32) -> Result<Vec<String>, String>,
 {
    forall|hit: Option<symbols::EntryModel>, a: hunks::Lines, b: hunks::Lines|
        #[trigger] is_excerpt(view, hit, a) && #[trigger] is_excerpt(view, hit, b) ==> a == b
}

/// Whether these are the lines of a symbol in two versions.
pub open spec fn are_excerpts<V, W>(
    view_from: &V,
    view_to: &W,
    before: Option<symbols::EntryModel>,
    after: Option<symbols::EntryModel>,
    before_lines: hunks::Lines,
    after_lines: hunks::Lines,
) -> bool where
    V: Fn(&str, u32, u32) -> Result<Vec<String>, String>,
    W: Fn(&str, u32, u32) -> Result<Vec<String>, String>,
 {
    &&& is_excerpt(view_from, before, before_lines)
    &&& is_excerpt(view_to, after, after_lines)
}

/// Whether this is the error of a view that could not show the lines of a symbol
/// that the version has.
pub open spec fn is_excerpt_error<V>(
    view: &V,
    hit: Option<symbols::EntryModel>,
    e: error::ErrorModel,
) -> bool where V: Fn(&str, u32, u32) -> Result<Vec<String>, String> {
    match hit {
        Some(entry) => is_unreadable(view, entry.path, entry.line, e),
        None => false,
    }
}

/// Whether this is the error of the first of two views that failed.
pub open spec fn is_first_error<V, W>(
    view_from: &V,
    view_to: &W,
    before: Option<symbols::EntryModel>,
    after: Option<symbols::EntryModel>,
    e: error::ErrorModel,
) -> bool where
    V: Fn(&str, u32, u32) -> Result<Vec<String>, String>,
    W: Fn(&str, u32, u32) -> Result<Vec<String>, String>,
 {
    ||| is_excerpt_error(view_from, before, e)
    ||| {
        &&& exists|lines: hunks::Lines| is_excerpt(view_from, before, lines)
        &&& is_excerpt_error(view_to, after, e)
    }
}

/// The diff of a symbol, from its places in the two versions and its lines there.
/// The kind is the old one, if there is one.
pub open spec fn symbol_diff(
    symbol: Seq<char>,
    before: Option<symbols::EntryModel>,
    after: Option<symbols::EntryModel>,
    before_lines: hunks::Lines,
    after_lines: hunks::Lines,
) -> SymbolDiffModel {
    SymbolDiffModel {
        symbol,
        kind: match (before, after) {
            (Some(before), _) => before.kind,
            (None, Some(after)) => after.kind,
            (None, None) => Seq::empty(),
        },
        before_path: match before {
            Some(before) => Some(before.path),
            None => None,
        },
        before_line: match before {
            Some(before) => Some(before.line),
            None => None,
        },
        after_path: match after {
            Some(after) => Some(after.path),
            None => None,
        },
        after_line: match after {
            Some(after) => Some(after.line),
            None => None,
        },
        hunks: hunks::line_diff(before_lines, after_lines),
    }
}

/// The symbol that a qualified name means in an index: the first, by path and
/// line, with its name, and with its namespace if it has one.
pub open spec fn meant_by(
    files: Map<Seq<char>, symbols::FileModel>,
    fqn: Seq<char>,
) -> Option<symbols::EntryModel> {
    let (name, namespace) = names::split_name(fqn);
    find::first_by_place(find::asked_for(files, name, None, namespace))
}

/// What a view showed of a symbol is its excerpt.
proof fn lemma_shown_is_excerpt<V>(
    view: &V,
    entry: symbols::EntryModel,
    shown: Vec<String>,
) where V: Fn(&str, u32, u32) -> Result<Vec<String>, String>
    requires
        was_shown(view, entry.path, entry.line, Ok(shown)),
    ensures
        is_excerpt(view, Some(entry), shown.deep_view()),
{
}

/// Reads the lines of a symbol, if the version has it.
fn excerpt_of<V>(view: &V, hit: Option<&ReferenceSymbolEntry>) -> (r: Result<
    Vec<String>,
    ReferenceError,
>) where V: Fn(&str, u32, u32) -> Result<Vec<String>, String>
    requires
        is_view(view),
    ensures
        match r {
            Ok(lines) => is_excerpt(view, hit.deep_view(), lines.deep_view()) && lines@.len()
                < u32::MAX / 2,
            Err(e) => is_excerpt_error(view, hit.deep_view(), e.deep_view()),
        },
{
    match hit {
        Some(entry) => {
            let ghost model = entry.deep_view();
            assert(hit.deep_view() == Some(model));
            match read_excerpt(view, entry.path.as_str(), entry.line) {
                Ok(lines) => {
                    proof {
                        lemma_shown_is_excerpt(view, model, lines);
                    }
                    assert(is_excerpt(view, hit.deep_view(), lines.deep_view()));
                    assert(lines@.len() < u32::MAX / 2);
                    Ok(lines)
                },
                Err(e) => {
                    assert(is_excerpt_error(view, Some(model), e.deep_view()));
                    Err(e)
                },
            }
        },
        None => {
            let lines: Vec<String> = Vec::new();
            assert(lines.deep_view().len() == 0);
            assert(is_excerpt(view, hit.deep_view(), lines.deep_view()));
            Ok(lines)
        },
    }
}

/// Makes the diff of a symbol from its places and its lines.
pub fn make_symbol_diff(
    symbol: String,
    before: Option<&ReferenceSymbolEntry>,
    after: Option<&ReferenceSymbolEntry>,
    before_lines: &Vec<String>,
    after_lines: &Vec<String>,
) -> (diff: SymbolDiff)
    requires
        before_lines.deep_view() != after_lines.deep_view() ==> before_lines@.len()
            + after_lines@.len() < u32::MAX,
    ensures
        diff.deep_view() == symbol_diff(
            symbol@,
            before.deep_view(),
            after.deep_view(),
            before_lines.deep_view(),
            after_lines.deep_view(),
        ),
        hunks::lead_between(
            diff.hunks.deep_view(),
            before_lines.deep_view(),
            after_lines.deep_view(),
        ),
        before_lines.deep_view() != after_lines.deep_view() ==> exists|starts: Seq<int>, ends: Seq<int>|
            hunks::are_runs(
                diff.hunks.deep_view(),
                hunks::similar_changes(before_lines.deep_view(), after_lines.deep_view()),
                starts,
                ends,
            ),
        diff.symbol@ == symbol@,
        before is Some ==> {
            &&& diff.kind@ == before->0.kind@
            &&& diff.before_path is Some
            &&& diff.before_path->0@ == before->0.path@
            &&& diff.before_line == Some(before->0.line)
        },
        before is None ==> diff.before_path is None && diff.before_line is None,
        before is None && after is Some ==> diff.kind@ == after->0.kind@,
        before is None && after is None ==> diff.kind@.len() == 0,
        after is Some ==> {
            &&& diff.after_path is Some
            &&& diff.after_path->0@ == after->0.path@
            &&& diff.after_line == Some(after->0.line)
        },
        after is None ==> diff.after_path is None && diff.after_line is None,
{
    let kind = match before {
        Some(before) => before.kind.clone(),
        None => match after {
            Some(after) => after.kind.clone(),
            None => String::new(),
        },
    };
    let old_lines = before_lines.as_slice();
    let new_lines = after_lines.as_slice();
    assert(old_lines.deep_view() =~= before_lines.deep_view());
    assert(new_lines.deep_view() =~= after_lines.deep_view());
    let hunks = compute_line_diff(old_lines, new_lines);
    SymbolDiff {
        symbol,
        kind,
        before_path: match before {
            Some(before) => Some(before.path.clone()),
            None => None,
        },
        before_line: match before {
            Some(before) => Some(before.line),
            None => None,
        },
        after_path: match after {
            Some(after) => Some(after.path.clone()),
            None => None,
        },
        after_line: match after {
            Some(after) => Some(after.line),
            None => None,
        },
        hunks,
    }
}

/// Whether this is the diff of a symbol, made from lines that the views showed of
/// it. Its hunks lead from the old lines to the new ones.
pub open spec fn is_symbol_diff<V, W>(
    view_from: &V,
    view_to: &W,
    symbol: Seq<char>,
    before: Option<symbols::EntryModel>,
    after: Option<symbols::EntryModel>,
    diff: SymbolDiffModel,
) -> bool where
    V: Fn(&str, u32, u32) -> Result<Vec<String>, String>,
    W: Fn(&str, u32, u32) -> Result<Vec<String>, String>,
 {
    exists|before_lines: hunks::Lines, after_lines: hunks::Lines|
        {
            &&& #[trigger] are_excerpts(
                view_from,
                view_to,
                before,
                after,
                before_lines,
                after_lines,
            )
            &&& diff == symbol_diff(symbol, before, after, before_lines, after_lines)
            &&& hunks::lead_between(diff.hunks, before_lines, after_lines)
        }
}

/// Compares a symbol on the lines that two views show of it.
fn compare_symbol<V, W>(
    symbol: String,
    before: Option<&ReferenceSymbolEntry>,
    after: Option<&ReferenceSymbolEntry>,
    view_from: &V,
    view_to: &W,
) -> (r: Result<SymbolDiff, ReferenceError>) where
    V: Fn(&str, u32, u32) -> Result<Vec<String>, String>,
    W: Fn(&str, u32, u32) -> Result<Vec<String>, String>,

    requires
        is_view(view_from),
        is_view(view_to),
    ensures
        match r {
            Ok(diff) => is_symbol_diff(
                view_from,
                view_to,
                symbol@,
                before.deep_view(),
                after.deep_view(),
                diff.deep_view(),
            ),
            Err(e) => is_first_error(
                view_from,
                view_to,
                before.deep_view(),
                after.deep_view(),
                e.deep_view(),
            ),
        },
{
    let before_lines = match excerpt_of(view_from, before) {
        Ok(lines) => lines,
        Err(e) => {
            return Err(e);
        },
    };
    assert(is_excerpt(view_from, before.deep_view(), before_lines.deep_view()));
    let after_lines = match excerpt_of(view_to, after) {
        Ok(lines) => lines,
        Err(e) => {
            return Err(e);
        },
    };
    assert(are_excerpts(
        view_from,
        view_to,
        before.deep_view(),
        after.deep_view(),
        before_lines.deep_view(),
        after_lines.deep_view(),
    ));
    Ok(make_symbol_diff(symbol, before, after, &before_lines, &after_lines))
}

/// Compares a symbol, given by its qualified name, in two versions. There is
/// nothing to compare if neither has it.
pub fn compute_symbol_diff<V, W>(
    from_index: &ReferenceSymbolIndex,
    to_index: &ReferenceSymbolIndex,
    symbol_fqn: &str,
    view_from: &V,
    view_to: &W,
) -> (r: Result<Option<SymbolDiff>, ReferenceError>) where
    V: Fn(&str, u32, u32) -> Result<Vec<String>, String>,
    W: Fn(&str, u32, u32) -> Result<Vec<String>, String>,

    requires
        is_view(view_from),
        is_view(view_to),
    ensures
        ({
            let before = meant_by(from_index.deep_view().files, symbol_fqn@);
            let after = meant_by(to_index.deep_view().files, symbol_fqn@);
            match r {
                Ok(None) => before is None && after is None,
                Ok(Some(diff)) => {
                    &&& before is Some || after is Some
                    &&& is_symbol_diff(
                        view_from,
                        view_to,
                        symbol_fqn@,
                        before,
                        after,
                        diff.deep_view(),
                    )
                },
                Err(e) => is_first_error(view_from, view_to, before, after, e.deep_view()),
            }
        }),
{
    let (name, namespace) = split_fqn(symbol_fqn);
    let namespace: Option<&str> = match &namespace {
        Some(namespace) => Some(namespace.as_str()),
        None => None,
    };
    let before_hit = find_first(from_index, name, namespace);
    let after_hit = find_first(to_index, name, namespace);
    if before_hit.is_none() && after_hit.is_none() {
        return Ok(None);
    }
    match compare_symbol(
        symbol_fqn.to_string(),
        before_hit.as_ref(),
        after_hit.as_ref(),
        view_from,
        view_to,
    ) {
        Ok(diff) => Ok(Some(diff)),
        Err(e) => Err(e),
    }
}

/// Whether two diffs of a symbol exchange the places that they give.
pub open spec fn is_turned(diff: SymbolDiffModel, back: SymbolDiffModel) -> bool {
    &&& back.symbol == diff.symbol
    &&& back.before_path == diff.after_path
    &&& back.before_line == diff.after_line
    &&& back.after_path == diff.before_path
    &&& back.after_line == diff.before_line
}

/// A symbol compared the other way round exchanges its places, and has no hunks
/// exactly if it had none before, as long as the sources stay as they are.
pub proof fn symbol_diffs_turn_around<V, W>(
    view_from: &V,
    view_to: &W,
    symbol: Seq<char>,
    before: Option<symbols::EntryModel>,
    after: Option<symbols::EntryModel>,
    diff: SymbolDiffModel,
    back: SymbolDiffModel,
) where
    V: Fn(&str, u32, u32) -> Result<Vec<String>, String>,
    W: Fn(&str, u32, u32) -> Result<Vec<String>, String>,

    requires
        is_symbol_diff(view_from, view_to, symbol, before, after, diff),
        is_symbol_diff(view_to, view_from, symbol, after, before, back),
    ensures
        is_turned(diff, back),
        is_steady(view_from) && is_steady(view_to) ==> (diff.hunks.len() == 0 <==> back.hunks.len()
            == 0),
{
}

/// The lines of a symbol are what the view answers when it is asked for thirty
/// lines, from the line before the symbol on; a version without the symbol has
/// none.
pub proof fn excerpts_are_what_the_views_show<V, W>(
    view_from: &V,
    view_to: &W,
    before: Option<symbols::EntryModel>,
    after: Option<symbols::EntryModel>,
    before_lines: hunks::Lines,
    after_lines: hunks::Lines,
) where
    V: Fn(&str, u32, u32) -> Result<Vec<String>, String>,
    W: Fn(&str, u32, u32) -> Result<Vec<String>, String>,

    requires
        are_excerpts(view_from, view_to, before, after, before_lines, after_lines),
    ensures
        before is None ==> before_lines.len() == 0,
        after is None ==> after_lines.len() == 0,
        before matches Some(entry) ==> exists|rel: &str, start: u32, shown: Vec<String>|
            {
                &&& rel@ == entry.path
                &&& entry.line <= 2 ==> start == 1
                &&& entry.line > 2 ==> start == entry.line - 1
                &&& #[trigger] call_ensures(*view_from, (rel, start, 30u32), Ok::<Vec<String>, String>(shown))
                &&& shown.deep_view() == before_lines
            },
        after matches Some(entry) ==> exists|rel: &str, start: u32, shown: Vec<String>|
            {
                &&& rel@ == entry.path
                &&& entry.line <= 2 ==> start == 1
                &&& entry.line > 2 ==> start == entry.line - 1
                &&& #[trigger] call_ensures(*view_to, (rel, start, 30u32), Ok::<Vec<String>, String>(shown))
                &&& shown.deep_view() == after_lines
            },
{
    if before is Some {
        lemma_excerpt_is_shown(view_from, before->0, before_lines);
    }
    if after is Some {
        lemma_excerpt_is_shown(view_to, after->0, after_lines);
    }
}

proof fn lemma_excerpt_is_shown<V>(view: &V, entry: symbols::EntryModel, lines: hunks::Lines) where
    V: Fn(&str, u32, u32) -> Result<Vec<String>, String>,

    requires
        is_excerpt(view, Some(entry), lines),
    ensures
        exists|rel: &str, start: u32, shown: Vec<String>|
            {
                &&& rel@ == entry.path
                &&& entry.line <= 2 ==> start == 1
                &&& entry.line > 2 ==> start == entry.line - 1
                &&& #[trigger] call_ensures(*view, (rel, start, 30u32), Ok::<Vec<String>, String>(shown))
                &&& shown.deep_view() == lines
            },
{
    let shown = choose|shown: Vec<String>|
        #[trigger] was_shown(view, entry.path, entry.line, Ok(shown)) && shown.deep_view() == lines;
    let reply: Result<Vec<String>, String> = Ok(shown);
    let start = excerpt_start(entry.line);
    let rel = choose|rel: &str|
        rel@ == entry.path && #[trigger] call_ensures(*view, (rel, start, DEFAULT_VIEW_WINDOW), reply);
    assert(call_ensures(*view, (rel, start, 30u32), reply));
}

/// The error of a comparison is that of a view that was asked for the lines of the
/// symbol: of the old version's, or else of the new version's after the old one
/// answered. It tells the path and the line of the symbol, and the reason that the
/// view gave.
pub proof fn errors_come_from_the_views<V, W>(
    view_from: &V,
    view_to: &W,
    before: Option<symbols::EntryModel>,
    after: Option<symbols::EntryModel>,
    e: error::ErrorModel,
) where
    V: Fn(&str, u32, u32) -> Result<Vec<String>, String>,
    W: Fn(&str, u32, u32) -> Result<Vec<String>, String>,

    requires
        is_first_error(view_from, view_to, before, after, e),
    ensures
        e is ExcerptUnreadable,
        ({
            ||| {
                &&& before is Some
                &&& e->path == before->0.path
                &&& e->line == before->0.line
                &&& was_refused(view_from, e->path, e->line, e->cause)
            }
            ||| {
                &&& after is Some
                &&& e->path == after->0.path
                &&& e->line == after->0.line
                &&& was_refused(view_to, e->path, e->line, e->cause)
                &&& exists|lines: hunks::Lines| is_excerpt(view_from, before, lines)
            }
        }),
{
    if is_excerpt_error(view_from, before, e) {
        lemma_refused(view_from, before->0.path, before->0.line, e);
    } else {
        lemma_refused(view_to, after->0.path, after->0.line, e);
    }
}

/// Whether a view gave this reason when it was asked for thirty lines of a file,
/// from the line before the given one on.
pub open spec fn was_refused<V>(view: &V, path: Seq<char>, line: u32, cause: Seq<char>) -> bool where
    V: Fn(&str, u32, u32) -> Result<Vec<String>, String>,
 {
    exists|rel: &str, start: u32, reason: String|
        {
            &&& rel@ == path
            &&& line <= 2 ==> start == 1
            &&& line > 2 ==> start == line - 1
            &&& reason@ == cause
            &&& #[trigger] call_ensures(*view, (rel, start, 30u32), Err::<Vec<String>, String>(reason))
        }
}

proof fn lemma_refused<V>(view: &V, path: Seq<char>, line: u32, e: error::ErrorModel) where
    V: Fn(&str, u32, u32) -> Result<Vec<String>, String>,

    requires
        is_unreadable(view, path, line, e),
    ensures
        e is ExcerptUnreadable,
        e->path == path,
        e->line == line,
        was_refused(view, path, line, e->cause),
{
    let cause = choose|cause: String| #[trigger]
        was_shown(view, path, line, Err(cause)) && e == (error::ErrorModel::ExcerptUnreadable {
            path,
            line,
            cause: cause@,
        });
    let reply: Result<Vec<String>, String> = Err(cause);
    let start = excerpt_start(line);
    let rel = choose|rel: &str|
        rel@ == path && #[trigger] call_ensures(*view, (rel, start, DEFAULT_VIEW_WINDOW), reply);
    assert(call_ensures(*view, (rel, start, 30u32), reply));
}

/// The diff of a symbol has its name, its places in the two versions, its old kind
/// if there is one, and the runs of edited lines between what the views show.
pub proof fn symbol_diffs_tell_places_and_edits<V, W>(
    view_from: &V,
    view_to: &W,
    symbol: Seq<char>,
    before: Option<symbols::EntryModel>,
    after: Option<symbols::EntryModel>,
    diff: SymbolDiffModel,
) where
    V: Fn(&str, u32, u32) -> Result<Vec<String>, String>,
    W: Fn(&str, u32, u32) -> Result<Vec<String>, String>,

    requires
        is_symbol_diff(view_from, view_to, symbol, before, after, diff),
    ensures
        diff.symbol == symbol,
        before matches Some(entry) ==> {
            &&& diff.kind == entry.kind
            &&& diff.before_path == Some(entry.path)
            &&& diff.before_line == Some(entry.line)
        },
        before is None ==> diff.before_path is None && diff.before_line is None,
        before is None && after is Some ==> diff.kind == after->0.kind,
        after matches Some(entry) ==> {
            &&& diff.after_path == Some(entry.path)
            &&& diff.after_line == Some(entry.line)
        },
        after is None ==> diff.after_path is None && diff.after_line is None,
        exists|before_lines: hunks::Lines, after_lines: hunks::Lines|
            {
                &&& #[trigger] are_excerpts(
                    view_from,
                    view_to,
                    before,
                    after,
                    before_lines,
                    after_lines,
                )
                &&& before_lines == after_lines ==> diff.hunks.len() == 0
                &&& before_lines != after_lines ==> exists|starts: Seq<int>, ends: Seq<int>|
                    hunks::are_runs(
                        diff.hunks,
                        hunks::similar_changes(before_lines, after_lines),
                        starts,
                        ends,
                    )
                &&& hunks::patched(before_lines, diff.hunks) == after_lines
            },
{
    let (before_lines, after_lines) = choose|before_lines: hunks::Lines, after_lines: hunks::Lines|
        {
            &&& #[trigger] are_excerpts(
                view_from,
                view_to,
                before,
                after,
                before_lines,
                after_lines,
            )
            &&& diff == symbol_diff(symbol, before, after, before_lines, after_lines)
            &&& hunks::lead_between(diff.hunks, before_lines, after_lines)
        };
    hunks::line_diffs_hold_the_edited_lines(before_lines, after_lines);
}

/// A qualified name means the first symbol, by path, by line and as they stand in
/// the index, that has exactly this namespace and this name; a name without a dot
/// means the first symbol with the name, in whatever namespace. If no symbol of the
/// index is such, it means nothing.
pub proof fn names_mean_what_they_say(files: Map<Seq<char>, symbols::FileModel>, fqn: Seq<char>)
    requires
        files.dom().finite(),
    ensures
        match meant_by(files, fqn) {
            None => forall|place: find::Place| #[trigger]
                find::has_place(files, place) ==> !goes_by(find::at_place(files, place), fqn),
            Some(hit) => exists|first: find::Place|
                {
                    &&& #[trigger] find::has_place(files, first)
                    &&& hit == find::at_place(files, first)
                    &&& goes_by(hit, fqn)
                    &&& forall|place: find::Place| #[trigger]
                        find::has_place(files, place) && goes_by(find::at_place(files, place), fqn)
                            && place != first ==> {
                            let other = find::at_place(files, place);
                            ||| order::precedes(hit.path, other.path)
                            ||| hit.path == other.path && hit.line < other.line
                            ||| hit.path == other.path && hit.line == other.line && find::is_earlier(
                                first,
                                place,
                            )
                        }
                },
        },
        meant_by(files, fqn) matches Some(hit) ==> if fqn.contains('.') {
            &&& hit.namespace is Some
            &&& !hit.name.contains('.')
            &&& hit.namespace->0 + seq!['.'] + hit.name == fqn
        } else {
            hit.name == fqn
        },
{
    let (name, namespace) = names::split_name(fqn);
    names::split_parts_rejoin(fqn);
    find::first_symbols_are_before_all_others(files, name, namespace);
    assert forall|entry: symbols::EntryModel| #[trigger]
        goes_by(entry, fqn) <==> entry.name == name && (namespace is Some ==> entry.namespace
            == namespace) by {
        if fqn.contains('.') && entry.namespace is Some && !entry.name.contains('.')
            && entry.namespace->0 + seq!['.'] + entry.name == fqn {
            assert(names::qualified(entry.namespace->0, entry.name) =~= fqn);
            names::qualified_names_come_apart(entry.namespace->0, entry.name);
        }
    }
    if meant_by(files, fqn) is Some {
        assert(goes_by(meant_by(files, fqn)->0, fqn));
    }
}

/// Whether a symbol goes by a name: its namespace, a dot and its name are the name,
/// or, where the name has no dot, its name is.
pub open spec fn goes_by(entry: symbols::EntryModel, fqn: Seq<char>) -> bool {
    if fqn.contains('.') {
        &&& entry.namespace is Some
        &&& !entry.name.contains('.')
        &&& entry.namespace->0 + seq!['.'] + entry.name == fqn
    } else {
        entry.name == fqn
    }
}

/// The diffs and summaries stand for all that they hold.
pub proof fn diffs_stand_for_their_fields(diff: SymbolDiff, summary: SymbolSummary, list: PathDiff)
    ensures
        diff.deep_view().symbol == diff.symbol@,
        diff.deep_view().kind == diff.kind@,
        diff.deep_view().before_path == (match diff.before_path {
            Some(text) => Some(text@),
            None => None,
        }),
        diff.deep_view().before_line == diff.before_line,
        diff.deep_view().after_path == (match diff.after_path {
            Some(text) => Some(text@),
            None => None,
        }),
        diff.deep_view().after_line == diff.after_line,
        diff.deep_view().hunks.len() == diff.hunks@.len(),
        forall|i: int|
            0 <= i < diff.hunks@.len() ==> #[trigger] diff.deep_view().hunks[i]
                == diff.hunks@[i].deep_view(),
        summary.deep_view().symbol == summary.symbol@,
        summary.deep_view().kind == summary.kind@,
        summary.deep_view().path == summary.path@,
        list.deep_view().added.len() == list.added@.len(),
        list.deep_view().removed.len() == list.removed@.len(),
        list.deep_view().changed.len() == list.changed@.len(),
        forall|i: int|
            0 <= i < list.added@.len() ==> #[trigger] list.deep_view().added[i]
                == list.added@[i].deep_view(),
        forall|i: int|
            0 <= i < list.removed@.len() ==> #[trigger] list.deep_view().removed[i]
                == list.removed@[i].deep_view(),
        forall|i: int|
            0 <= i < list.changed@.len() ==> #[trigger] list.deep_view().changed[i]
                == list.changed@[i].deep_view(),
        list.deep_view().truncated == list.truncated,
{
}

/// The key of a symbol in a path diff: its qualified name, or its name if it has
/// none.
pub open spec fn key_of(entry: symbols::EntryModel) -> Seq<char> {
    match entry.fqn {
        Some(fqn) => fqn,
        None => entry.name,
    }
}

/// Tells the key of a symbol.
pub fn symbol_key(entry: &ReferenceSymbolEntry) -> (key: String)
    ensures
        key@ == key_of(entry.deep_view()),
        entry.fqn is Some ==> key@ == entry.fqn->0@,
        entry.fqn is None ==> key@ == entry.name@,
{
    match &entry.fqn {
        Some(fqn) => fqn.clone(),
        None => entry.name.clone(),
    }
}

/// A symbol of an index that was taken from a source text is meant by its key:
/// what is found under the key has its name and, if it has one, its namespace, and
/// does not stand behind it.
pub proof fn symbols_are_meant_by_their_keys(
    files: Map<Seq<char>, symbols::FileModel>,
    entry: symbols::EntryModel,
    rel_path: Seq<char>,
    namespace: Option<Seq<char>>,
)
    requires
        find::all_symbols(files).contains(entry),
        extract::is_symbol_of_file(entry, rel_path, namespace),
    ensures
        meant_by(files, key_of(entry)) matches Some(hit) && {
            &&& find::all_symbols(files).contains(hit)
            &&& hit.name == entry.name
            &&& namespace is Some ==> hit.namespace == namespace
            &&& find::not_behind(hit, entry)
        },
{
    let (name, asked) = names::split_name(key_of(entry));
    extract::identifiers_have_no_dot(entry.name);
    assert(name == entry.name && asked == namespace);
    let all = find::all_symbols(files);
    let wanted = |e: symbols::EntryModel| find::is_asked_for(e, name, None, asked);
    let found = all.filter(wanted);
    let i = choose|i: int| 0 <= i < all.len() && all[i] == entry;
    all.lemma_filter_contains(wanted, i);
    find::first_by_place_is_found(found, entry);
    let hit = find::first_by_place(found)->0;
    all.lemma_filter_contains_rev(wanted, hit);
    let j = choose|j: int| 0 <= j < found.len() && found[j] == hit;
    all.lemma_filter_pred(wanted, j);
}

/// Whether the first symbol with a key stands at position `i`.
pub open spec fn is_first_with_key(
    entries: Seq<symbols::EntryModel>,
    key: Seq<char>,
    i: int,
) -> bool {
    &&& 0 <= i < entries.len()
    &&& key_of(entries[i]) == key
    &&& forall|j: int| 0 <= j < i ==> key_of(#[trigger] entries[j]) != key
}

/// The symbols by key; of those with the same key, the first.
pub open spec fn by_key(entries: Seq<symbols::EntryModel>) -> Map<Seq<char>, symbols::EntryModel> {
    Map::new(
        |key: Seq<char>| exists|i: int| is_first_with_key(entries, key, i),
        |key: Seq<char>| entries[choose|i: int| is_first_with_key(entries, key, i)],
    )
}

proof fn lemma_first_with_key(entries: Seq<symbols::EntryModel>, key: Seq<char>, i: int)
    requires
        is_first_with_key(entries, key, i),
    ensures
        by_key(entries).contains_key(key),
        by_key(entries)[key] == entries[i],
{
    let c = choose|c: int| is_first_with_key(entries, key, c);
    assert(is_first_with_key(entries, key, c));
    assert(c == i);
}

/// One more symbol counts only if its key is new.
proof fn lemma_by_key_push(entries: Seq<symbols::EntryModel>, entry: symbols::EntryModel)
    ensures
        by_key(entries.push(entry)) == if by_key(entries).contains_key(key_of(entry)) {
            by_key(entries)
        } else {
            by_key(entries).insert(key_of(entry), entry)
        },
{
    let more = entries.push(entry);
    let target = if by_key(entries).contains_key(key_of(entry)) {
        by_key(entries)
    } else {
        by_key(entries).insert(key_of(entry), entry)
    };
    let n = entries.len() as int;
    assert forall|key: Seq<char>| by_key(entries).contains_key(key) implies by_key(more).contains_key(key)
        && #[trigger] by_key(more)[key] == by_key(entries)[key] by {
        let i = choose|i: int| is_first_with_key(entries, key, i);
        assert forall|j: int| 0 <= j < i implies key_of(#[trigger] more[j]) != key by {
            assert(more[j] == entries[j]);
        }
        assert(is_first_with_key(more, key, i));
        lemma_first_with_key(more, key, i);
        lemma_first_with_key(entries, key, i);
    }
    assert forall|key: Seq<char>| by_key(more).contains_key(key) implies by_key(entries).contains_key(key) || key
        == key_of(entry) by {
        let i = choose|i: int| is_first_with_key(more, key, i);
        if i < n {
            assert forall|j: int| 0 <= j < i implies key_of(#[trigger] entries[j]) != key by {
                assert(more[j] == entries[j]);
            }
            assert(is_first_with_key(entries, key, i));
        }
    }
    if !by_key(entries).contains_key(key_of(entry)) {
        let key = key_of(entry);
        assert forall|j: int| 0 <= j < n implies key_of(#[trigger] more[j]) != key by {
            if key_of(more[j]) == key {
                lemma_has_first(entries, key, j);
            }
        }
        assert(is_first_with_key(more, key, n));
        lemma_first_with_key(more, key, n);
    }
    assert forall|key: Seq<char>| by_key(more).contains_key(key) <==> target.contains_key(key) by {
        if by_key(entries).contains_key(key) {
            assert(by_key(more)[key] == by_key(entries)[key]);
        }
    }
    assert forall|key: Seq<char>| by_key(more).contains_key(key) implies by_key(more)[key] == target[key] by {
        if by_key(entries).contains_key(key) {
            assert(by_key(more)[key] == by_key(entries)[key]);
        }
    }
    assert(by_key(more) =~= target);
}

proof fn lemma_has_first(entries: Seq<symbols::EntryModel>, key: Seq<char>, j: int)
    requires
        0 <= j < entries.len(),
        key_of(entries[j]) == key,
    ensures
        exists|i: int| is_first_with_key(entries, key, i),
    decreases j,
{
    if forall|i: int| 0 <= i < j ==> key_of(#[trigger] entries[i]) != key {
        assert(is_first_with_key(entries, key, j));
    } else {
        let i = choose|i: int| 0 <= i < j && key_of(#[trigger] entries[i]) == key;
        lemma_has_first(entries, key, i);
    }
}

/// The symbols of an index whose path begins with a prefix, by key.
pub open spec fn listed(
    files: Map<Seq<char>, symbols::FileModel>,
    prefix: Seq<char>,
) -> Map<Seq<char>, symbols::EntryModel> {
    by_key(find::all_symbols(files).filter(|e: symbols::EntryModel| prefix.is_prefix_of(e.path)))
}

/// Of every symbol of an index whose path begins with the prefix, whatever its
/// kind, the table has the key: its qualified name, or its name. Under each key it
/// has the first symbol of the index with this key and such a path.
pub proof fn tables_list_all_below_the_path(
    files: Map<Seq<char>, symbols::FileModel>,
    prefix: Seq<char>,
)
    requires
        files.dom().finite(),
    ensures
        forall|entry: symbols::EntryModel| #[trigger]
            key_of(entry) == if entry.fqn is Some {
                entry.fqn->0
            } else {
                entry.name
            },
        forall|place: find::Place| #[trigger]
            find::has_place(files, place) && prefix.is_prefix_of(find::at_place(files, place).path)
                ==> listed(files, prefix).contains_key(key_of(find::at_place(files, place))),
        forall|key: Seq<char>| #[trigger]
            listed(files, prefix).contains_key(key) ==> exists|first: find::Place|
                {
                    &&& #[trigger] find::has_place(files, first)
                    &&& listed(files, prefix)[key] == find::at_place(files, first)
                    &&& prefix.is_prefix_of(find::at_place(files, first).path)
                    &&& key_of(find::at_place(files, first)) == key
                    &&& forall|place: find::Place| #[trigger]
                        find::has_place(files, place) && find::is_earlier(place, first)
                            && prefix.is_prefix_of(find::at_place(files, place).path) ==> key_of(
                            find::at_place(files, place),
                        ) != key
                },
        listed(files, prefix).dom().finite(),
{
    let in_scope = |e: symbols::EntryModel| prefix.is_prefix_of(e.path);
    let entries = find::all_symbols(files).filter(in_scope);
    let at = find::lemma_places_of(files, in_scope);
    let table = listed(files, prefix);
    lemma_by_key_finite(entries);
    assert forall|place: find::Place| #[trigger]
        find::has_place(files, place) && prefix.is_prefix_of(find::at_place(files, place).path) implies table.contains_key(
        key_of(find::at_place(files, place)),
    ) by {
        assert(in_scope(find::at_place(files, place)));
        let m = choose|m: int| 0 <= m < at.len() && at[m] == place;
        assert(entries[m] == find::at_place(files, at[m]));
        lemma_has_first(entries, key_of(entries[m]), m);
    }
    assert forall|key: Seq<char>| #[trigger] table.contains_key(key) implies exists|first: find::Place|
        {
            &&& #[trigger] find::has_place(files, first)
            &&& table[key] == find::at_place(files, first)
            &&& prefix.is_prefix_of(find::at_place(files, first).path)
            &&& key_of(find::at_place(files, first)) == key
            &&& forall|place: find::Place| #[trigger]
                find::has_place(files, place) && find::is_earlier(place, first)
                    && prefix.is_prefix_of(find::at_place(files, place).path) ==> key_of(
                    find::at_place(files, place),
                ) != key
        } by {
        let i = choose|i: int| is_first_with_key(entries, key, i);
        lemma_first_with_key(entries, key, i);
        let first = at[i];
        assert(find::has_place(files, first));
        assert(in_scope(find::at_place(files, first)));
        assert(entries[i] == find::at_place(files, first));
        assert forall|place: find::Place| #[trigger]
            find::has_place(files, place) && find::is_earlier(place, first)
                && prefix.is_prefix_of(find::at_place(files, place).path) implies key_of(
            find::at_place(files, place),
        ) != key by {
            assert(in_scope(find::at_place(files, place)));
            let m = choose|m: int| 0 <= m < at.len() && at[m] == place;
            assert(entries[m] == find::at_place(files, at[m]));
            if order::precedes(place.0, first.0) {
                order::order_is_asymmetric(place.0, first.0);
            }
            if m > i {
                assert(find::is_earlier(at[i], at[m]));
                if order::precedes(first.0, place.0) {
                    order::order_is_asymmetric(first.0, place.0);
                }
            }
            assert(m < i);
        }
    }
}

/// Lists the symbols of an index whose path begins with a prefix, by key.
fn symbols_by_key<'a>(index: &'a ReferenceSymbolIndex, prefix: &str) -> (table: StringTable<
    &'a ReferenceSymbolEntry,
>)
    ensures
        table.deep_view() == listed(index.deep_view().files, prefix@),
{
    let ghost files = index.files.deep_view();
    let ghost keys = order::ascending(files.dom());
    let ghost symbols_of = |key: Seq<char>| files[key].symbols;
    let ghost in_scope = |e: symbols::EntryModel| prefix@.is_prefix_of(e.path);
    let mut table: StringTable<&'a ReferenceSymbolEntry> = StringTable::new();
    let mut f: usize = 0;
    proof {
        assert(index.files@.dom() =~= files.dom());
        assert(keys.take(0).map_values(symbols_of) =~= Seq::empty());
        assert(keys.take(0).map_values(symbols_of).flatten() =~= Seq::empty());
        assert(keys.take(0).map_values(symbols_of).flatten().filter(in_scope) =~= Seq::empty());
        assert(table.deep_view() =~= by_key(Seq::empty()));
    }
    while f < index.files.len()
        invariant
            f <= keys.len(),
            files == index.files.deep_view(),
            keys == index.files.keys(),
            symbols_of == (|key: Seq<char>| files[key].symbols),
            in_scope == (|e: symbols::EntryModel| prefix@.is_prefix_of(e.path)),
            table.deep_view() == by_key(
                keys.take(f as int).map_values(symbols_of).flatten().filter(in_scope),
            ),
        decreases keys.len() - f,
    {
        let file = index.files.value_at(f);
        let ghost passed = keys.take(f as int).map_values(symbols_of).flatten();
        let ghost here = file.symbols.deep_view();
        let mut s: usize = 0;
        assert(passed + here.take(0) =~= passed);
        while s < file.symbols.len()
            invariant
                s <= file.symbols@.len(),
                here == file.symbols.deep_view(),
                in_scope == (|e: symbols::EntryModel| prefix@.is_prefix_of(e.path)),
                table.deep_view() == by_key((passed + here.take(s as int)).filter(in_scope)),
            decreases file.symbols@.len() - s,
        {
            let entry = &file.symbols[s];
            let ghost seen = passed + here.take(s as int);
            let ghost sofar = table.deep_view();
            proof {
                assert(passed + here.take(s + 1) =~= seen.push(here[s as int]));
                assert(here[s as int] == entry.deep_view());
                seen.lemma_filter_push(here[s as int], in_scope);
                lemma_by_key_push(seen.filter(in_scope), entry.deep_view());
            }
            if begins_with(entry.path.as_str(), prefix) {
                let key = symbol_key(entry);
                let ghost rows = table@;
                table.insert_if_absent(key, entry);
                proof {
                    if rows.contains_key(key@) {
                        assert(table.deep_view() =~= sofar);
                    } else {
                        assert(table.deep_view() =~= sofar.insert(key@, entry.deep_view()));
                    }
                }
            }
            s += 1;
        }
        proof {
            assert(here.take(s as int) =~= here);
            let lists = keys.take(f as int).map_values(symbols_of);
            assert(keys.take(f + 1).map_values(symbols_of) =~= lists.push(here));
            lists.lemma_flatten_push(here);
        }
        f += 1;
    }
    assert(keys.take(f as int) =~= keys);
    table
}

/// The keys of one table that the other lacks, in ascending order.
pub open spec fn missing_keys(
    table: Map<Seq<char>, symbols::EntryModel>,
    other: Map<Seq<char>, symbols::EntryModel>,
) -> Seq<Seq<char>> {
    order::ascending(table.dom()).filter(|key: Seq<char>| !other.contains_key(key))
}

/// The first elements of a list, as many as there is room for.
pub open spec fn cut<A>(list: Seq<A>, room: nat) -> Seq<A> {
    if list.len() <= room {
        list
    } else {
        list.take(room as int)
    }
}

/// The summaries of symbols, given by their keys.
pub open spec fn summaries(
    keys: Seq<Seq<char>>,
    table: Map<Seq<char>, symbols::EntryModel>,
) -> Seq<SummaryModel> {
    keys.map_values(
        |key: Seq<char>|
            SummaryModel { symbol: key, kind: table[key].kind, path: table[key].path },
    )
}

/// Summarises the symbols of one table that the other lacks, as many as there is
/// room for, and tells whether there were more.
fn summarize_missing(
    table: &StringTable<&ReferenceSymbolEntry>,
    other: &StringTable<&ReferenceSymbolEntry>,
    room: usize,
) -> (r: (Vec<SymbolSummary>, bool))
    ensures
        r.0.deep_view() == summaries(
            cut(missing_keys(table.deep_view(), other.deep_view()), room as nat),
            table.deep_view(),
        ),
        r.1 == (missing_keys(table.deep_view(), other.deep_view()).len() > room),
        r.0@.len() <= room,
{
    let ghost rows = table.deep_view();
    let ghost keys = order::ascending(rows.dom());
    let ghost lacks = |key: Seq<char>| !other.deep_view().contains_key(key);
    let ghost missing = keys.filter(lacks);
    let mut list: Vec<SymbolSummary> = Vec::new();
    let mut i: usize = 0;
    proof {
        assert(table@.dom() =~= rows.dom());
        assert(keys.take(0).filter(lacks) =~= Seq::empty());
        assert(list.deep_view() =~= summaries(keys.take(0).filter(lacks), rows));
    }
    while i < table.len()
        invariant
            i <= keys.len(),
            keys == table.keys(),
            rows == table.deep_view(),
            lacks == (|key: Seq<char>| !other.deep_view().contains_key(key)),
            missing == keys.filter(lacks),
            missing == missing_keys(table.deep_view(), other.deep_view()),
            list@.len() <= room,
            list@.len() == keys.take(i as int).filter(lacks).len(),
            list.deep_view() == summaries(keys.take(i as int).filter(lacks), rows),
        decreases keys.len() - i,
    {
        let key = table.key_at(i);
        let ghost sofar = keys.take(i as int).filter(lacks);
        let ghost summed = list.deep_view();
        proof {
            assert(keys.take(i + 1) =~= keys.take(i as int).push(key@));
            keys.take(i as int).lemma_filter_push(key@, lacks);
            Seq::filter_distributes_over_add(keys.take(i + 1), keys.skip(i + 1), lacks);
            assert(keys =~= keys.take(i + 1) + keys.skip(i + 1));
        }
        if !other.contains_key(key.as_str()) {
            if list.len() >= room {
                proof {
                    assert(missing.len() > room);
                    assert(missing.take(room as int) =~= sofar);
                }
                return (list, true);
            }
            let entry = table.value_at(i);
            let summary = SymbolSummary {
                symbol: key.clone(),
                kind: entry.kind.clone(),
                path: entry.path.clone(),
            };
            let ghost model = summary.deep_view();
            list.push(summary);
            proof {
                assert(list.deep_view() =~= summed.push(model));
                assert(summaries(keys.take(i + 1).filter(lacks), rows) =~= summed.push(model));
            }
        }
        i += 1;
    }
    assert(keys.take(i as int) =~= keys);
    (list, false)
}

/// The keys that both tables have, in ascending order.
pub open spec fn common_keys(
    before: Map<Seq<char>, symbols::EntryModel>,
    after: Map<Seq<char>, symbols::EntryModel>,
) -> Seq<Seq<char>> {
    order::ascending(before.dom()).filter(|key: Seq<char>| after.contains_key(key))
}

/// The diff of a symbol that both tables have.
pub open spec fn common_diff(
    before: Map<Seq<char>, symbols::EntryModel>,
    after: Map<Seq<char>, symbols::EntryModel>,
    key: Seq<char>,
    lines: (hunks::Lines, hunks::Lines),
) -> SymbolDiffModel {
    symbol_diff(key, Some(before[key]), Some(after[key]), lines.0, lines.1)
}

/// The diffs of those of the first common symbols whose lines differ. `reads` has
/// the old and the new lines of each symbol that was compared.
pub open spec fn differing(
    before: Map<Seq<char>, symbols::EntryModel>,
    after: Map<Seq<char>, symbols::EntryModel>,
    reads: Seq<(hunks::Lines, hunks::Lines)>,
) -> Seq<SymbolDiffModel>
    decreases reads.len(),
{
    if reads.len() == 0 {
        Seq::empty()
    } else {
        let passed = differing(before, after, reads.drop_last());
        let diff = common_diff(
            before,
            after,
            common_keys(before, after)[reads.len() - 1],
            reads.last(),
        );
        if reads.last().0 == reads.last().1 {
            passed
        } else {
            passed.push(diff)
        }
    }
}

/// Whether the common symbols were compared one after the other, each on the
/// lines that the views showed, and each while there was still room in the list.
#[verifier::opaque]
pub open spec fn were_compared<V, W>(
    view_from: &V,
    view_to: &W,
    before: Map<Seq<char>, symbols::EntryModel>,
    after: Map<Seq<char>, symbols::EntryModel>,
    room: int,
    reads: Seq<(hunks::Lines, hunks::Lines)>,
) -> bool where
    V: Fn(&str, u32, u32) -> Result<Vec<String>, String>,
    W: Fn(&str, u32, u32) -> Result<Vec<String>, String>,
 {
    let keys = common_keys(before, after);
    &&& reads.len() <= keys.len()
    &&& forall|i: int|
        0 <= i < reads.len() ==> {
            &&& are_excerpts(
                view_from,
                view_to,
                Some(before[keys[i]]),
                Some(after[keys[i]]),
                (#[trigger] reads[i]).0,
                reads[i].1,
            )
            &&& differing(before, after, reads.take(i)).len() < room
        }
}

/// Whether comparing the common symbols ended like this: all were compared, or
/// the list was full before the next one.
pub open spec fn comparing_ended<V, W>(
    view_from: &V,
    view_to: &W,
    before: Map<Seq<char>, symbols::EntryModel>,
    after: Map<Seq<char>, symbols::EntryModel>,
    room: int,
    changed: Seq<SymbolDiffModel>,
    truncated: bool,
) -> bool where
    V: Fn(&str, u32, u32) -> Result<Vec<String>, String>,
    W: Fn(&str, u32, u32) -> Result<Vec<String>, String>,
 {
    exists|reads: Seq<(hunks::Lines, hunks::Lines)>|
        {
            &&& #[trigger] were_compared(view_from, view_to, before, after, room, reads)
            &&& changed == differing(before, after, reads)
            &&& changed.len() <= room
            &&& truncated == (reads.len() < common_keys(before, after).len())
            &&& truncated ==> changed.len() == room
        }
}

/// Whether comparing the common symbols ended in this error of a view.
pub open spec fn comparing_failed<V, W>(
    view_from: &V,
    view_to: &W,
    before: Map<Seq<char>, symbols::EntryModel>,
    after: Map<Seq<char>, symbols::EntryModel>,
    room: int,
    e: error::ErrorModel,
) -> bool where
    V: Fn(&str, u32, u32) -> Result<Vec<String>, String>,
    W: Fn(&str, u32, u32) -> Result<Vec<String>, String>,
 {
    exists|reads: Seq<(hunks::Lines, hunks::Lines)>|
        {
            let keys = common_keys(before, after);
            &&& #[trigger] were_compared(view_from, view_to, before, after, room, reads)
            &&& reads.len() < keys.len()
            &&& differing(before, after, reads).len() < room
            &&& is_first_error(
                view_from,
                view_to,
                Some(before[keys[reads.len() as int]]),
                Some(after[keys[reads.len() as int]]),
                e,
            )
        }
}

/// One more symbol compared while there is room.
proof fn lemma_one_more_compared<V, W>(
    view_from: &V,
    view_to: &W,
    before: Map<Seq<char>, symbols::EntryModel>,
    after: Map<Seq<char>, symbols::EntryModel>,
    room: int,
    reads: Seq<(hunks::Lines, hunks::Lines)>,
    lines: (hunks::Lines, hunks::Lines),
) where
    V: Fn(&str, u32, u32) -> Result<Vec<String>, String>,
    W: Fn(&str, u32, u32) -> Result<Vec<String>, String>,

    requires
        were_compared(view_from, view_to, before, after, room, reads),
        reads.len() < common_keys(before, after).len(),
        differing(before, after, reads).len() < room,
        are_excerpts(
            view_from,
            view_to,
            Some(before[common_keys(before, after)[reads.len() as int]]),
            Some(after[common_keys(before, after)[reads.len() as int]]),
            lines.0,
            lines.1,
        ),
    ensures
        were_compared(view_from, view_to, before, after, room, reads.push(lines)),
        differing(before, after, reads.push(lines)) == {
            let diff = common_diff(
                before,
                after,
                common_keys(before, after)[reads.len() as int],
                lines,
            );
            if lines.0 == lines.1 {
                differing(before, after, reads)
            } else {
                differing(before, after, reads).push(diff)
            }
        },
{
    reveal(were_compared);
    let more = reads.push(lines);
    let keys = common_keys(before, after);
    assert(more.drop_last() =~= reads);
    assert forall|i: int| 0 <= i < more.len() implies {
        &&& are_excerpts(
            view_from,
            view_to,
            Some(before[keys[i]]),
            Some(after[keys[i]]),
            (#[trigger] more[i]).0,
            more[i].1,
        )
        &&& differing(before, after, more.take(i)).len() < room
    } by {
        if i < reads.len() {
            assert(more.take(i) =~= reads.take(i));
            assert(more[i] == reads[i]);
        } else {
            assert(more.take(i) =~= reads);
        }
    }
}

/// Compares the symbols that both tables have, as long as there is room in the
/// list of those that differ.
fn compare_common<V, W>(
    before: &StringTable<&ReferenceSymbolEntry>,
    after: &StringTable<&ReferenceSymbolEntry>,
    room: usize,
    view_from: &V,
    view_to: &W,
) -> (r: Result<(Vec<SymbolDiff>, bool), ReferenceError>) where
    V: Fn(&str, u32, u32) -> Result<Vec<String>, String>,
    W: Fn(&str, u32, u32) -> Result<Vec<String>, String>,

    requires
        is_view(view_from),
        is_view(view_to),
    ensures
        match r {
            Ok(done) => {
                &&& comparing_ended(
                    view_from,
                    view_to,
                    before.deep_view(),
                    after.deep_view(),
                    room as int,
                    done.0.deep_view(),
                    done.1,
                )
                &&& forall|i: int| 0 <= i < done.0@.len() ==> (#[trigger] done.0@[i]).hunks@.len() > 0
            },
            Err(e) => comparing_failed(
                view_from,
                view_to,
                before.deep_view(),
                after.deep_view(),
                room as int,
                e.deep_view(),
            ),
        },
{
    let ghost old_rows = before.deep_view();
    let ghost new_rows = after.deep_view();
    let ghost keys = order::ascending(old_rows.dom());
    let ghost shared = |key: Seq<char>| new_rows.contains_key(key);
    let ghost common = keys.filter(shared);
    let ghost mut reads: Seq<(hunks::Lines, hunks::Lines)> = Seq::empty();
    let mut changed: Vec<SymbolDiff> = Vec::new();
    let mut i: usize = 0;
    proof {
        assert(before@.dom() =~= old_rows.dom());
        assert(keys.take(0).filter(shared) =~= Seq::empty());
        assert(changed.deep_view() =~= differing(old_rows, new_rows, reads));
        assert(were_compared(view_from, view_to, old_rows, new_rows, room as int, reads)) by {
            reveal(were_compared);
        }
    }
    #[verifier::loop_isolation(false)]
    while i < before.len()
        invariant
            i <= keys.len(),
            keys == before.keys(),
            reads.len() == keys.take(i as int).filter(shared).len(),
            were_compared(view_from, view_to, old_rows, new_rows, room as int, reads),
            changed.deep_view() == differing(old_rows, new_rows, reads),
            changed@.len() <= room,
            forall|j: int| 0 <= j < changed@.len() ==> (#[trigger] changed@[j]).hunks@.len() > 0,
        decreases keys.len() - i,
    {
        let key = before.key_at(i);
        let ghost n = reads.len() as int;
        proof {
            assert(keys.take(i + 1) =~= keys.take(i as int).push(key@));
            keys.take(i as int).lemma_filter_push(key@, shared);
            Seq::filter_distributes_over_add(keys.take(i + 1), keys.skip(i + 1), shared);
            assert(keys =~= keys.take(i + 1) + keys.skip(i + 1));
        }
        if let Some(after_entry) = after.get(key.as_str()) {
            assert(shared(key@));
            assert(common[n] == key@);
            if changed.len() >= room {
                return Ok((changed, true));
            }
            let after_entry: &ReferenceSymbolEntry = *after_entry;
            let before_entry: &ReferenceSymbolEntry = *before.value_at(i);
            assert(old_rows[key@] == before_entry.deep_view());
            assert(new_rows[key@] == after_entry.deep_view());
            let diff = match compare_symbol(
                key.clone(),
                Some(before_entry),
                Some(after_entry),
                view_from,
                view_to,
            ) {
                Ok(diff) => diff,
                Err(e) => {
                    return Err(e);
                },
            };
            let ghost model = diff.deep_view();
            let ghost sofar = changed.deep_view();
            proof {
                let (old_lines, new_lines) = choose|old_lines: hunks::Lines, new_lines: hunks::Lines|
                    {
                        &&& #[trigger] are_excerpts(
                            view_from,
                            view_to,
                            Some(old_rows[key@]),
                            Some(new_rows[key@]),
                            old_lines,
                            new_lines,
                        )
                        &&& model == symbol_diff(
                            key@,
                            Some(old_rows[key@]),
                            Some(new_rows[key@]),
                            old_lines,
                            new_lines,
                        )
                        &&& hunks::lead_between(model.hunks, old_lines, new_lines)
                    };
                lemma_one_more_compared(
                    view_from,
                    view_to,
                    old_rows,
                    new_rows,
                    room as int,
                    reads,
                    (old_lines, new_lines),
                );
                reads = reads.push((old_lines, new_lines));
                assert(diff.hunks.deep_view().len() == diff.hunks@.len());
            }
            if diff.hunks.len() > 0 {
                changed.push(diff);
                assert(changed.deep_view() =~= sofar.push(model));
            }
        }
        i += 1;
    }
    assert(keys.take(i as int) =~= keys);
    Ok((changed, false))
}

/// Whether a path diff is what the limit allows of the differences between two
/// tables: first the added symbols, then the removed ones, then those whose lines
/// differ, and marked as cut short where something had to be left out.
pub open spec fn is_path_diff<V, W>(
    view_from: &V,
    view_to: &W,
    before: Map<Seq<char>, symbols::EntryModel>,
    after: Map<Seq<char>, symbols::EntryModel>,
    max: nat,
    diff: PathDiffModel,
) -> bool where
    V: Fn(&str, u32, u32) -> Result<Vec<String>, String>,
    W: Fn(&str, u32, u32) -> Result<Vec<String>, String>,
 {
    let added = missing_keys(after, before);
    let removed = missing_keys(before, after);
    &&& diff.added == summaries(cut(added, max), after)
    &&& if added.len() > max {
        diff.removed.len() == 0 && diff.changed.len() == 0 && diff.truncated
    } else {
        let room = (max - added.len()) as nat;
        &&& diff.removed == summaries(cut(removed, room), before)
        &&& if removed.len() > room {
            diff.changed.len() == 0 && diff.truncated
        } else {
            comparing_ended(
                view_from,
                view_to,
                before,
                after,
                room - removed.len(),
                diff.changed,
                diff.truncated,
            )
        }
    }
}

/// Lists what was added, removed or changed between two tables, up to a limit.
fn diff_tables<V, W>(
    before: &StringTable<&ReferenceSymbolEntry>,
    after: &StringTable<&ReferenceSymbolEntry>,
    max: usize,
    view_from: &V,
    view_to: &W,
) -> (r: Result<PathDiff, ReferenceError>) where
    V: Fn(&str, u32, u32) -> Result<Vec<String>, String>,
    W: Fn(&str, u32, u32) -> Result<Vec<String>, String>,

    requires
        is_view(view_from),
        is_view(view_to),
    ensures
        ({
            let old_rows = before.deep_view();
            let new_rows = after.deep_view();
            let taken = missing_keys(new_rows, old_rows).len() + missing_keys(old_rows, new_rows).len();
            match r {
                Ok(diff) => {
                    &&& is_path_diff(
                        view_from,
                        view_to,
                        old_rows,
                        new_rows,
                        max as nat,
                        diff.deep_view(),
                    )
                    &&& forall|i: int|
                        0 <= i < diff.changed@.len() ==> (#[trigger] diff.changed@[i]).hunks@.len() > 0
                },
                Err(e) => taken <= max && comparing_failed(
                    view_from,
                    view_to,
                    old_rows,
                    new_rows,
                    max - taken,
                    e.deep_view(),
                ),
            }
        }),
{
    let (added, more_added) = summarize_missing(after, before, max);
    if more_added {
        return Ok(PathDiff { added, removed: Vec::new(), changed: Vec::new(), truncated: true });
    }
    assert(added@.len() == added.deep_view().len());
    let room: usize = max - added.len();
    let (removed, more_removed) = summarize_missing(before, after, room);
    if more_removed {
        return Ok(PathDiff { added, removed, changed: Vec::new(), truncated: true });
    }
    assert(removed@.len() == removed.deep_view().len());
    match compare_common(before, after, room - removed.len(), view_from, view_to) {
        Ok((changed, truncated)) => Ok(PathDiff { added, removed, changed, truncated }),
        Err(e) => Err(e),
    }
}

/// The limit of a path diff.
pub open spec fn limit_of(max_symbols: Option<usize>) -> nat {
    match max_symbols {
        Some(max) => max as nat,
        None => DEFAULT_MAX_SYMBOLS as nat,
    }
}

/// The prefix that the path of a symbol must have to be listed.
pub open spec fn prefix_of(path_filter: Option<&str>) -> Seq<char> {
    match path_filter {
        Some(prefix) => prefix@,
        None => Seq::empty(),
    }
}

/// Lists the symbols below a path that were added, removed or changed between two
/// versions, up to a limit.
pub fn compute_path_diff<V, W>(
    from_index: &ReferenceSymbolIndex,
    to_index: &ReferenceSymbolIndex,
    path_filter: Option<&str>,
    max_symbols: Option<usize>,
    view_from: &V,
    view_to: &W,
) -> (r: Result<PathDiff, ReferenceError>) where
    V: Fn(&str, u32, u32) -> Result<Vec<String>, String>,
    W: Fn(&str, u32, u32) -> Result<Vec<String>, String>,

    requires
        is_view(view_from),
        is_view(view_to),
    ensures
        ({
            let before = listed(from_index.deep_view().files, prefix_of(path_filter));
            let after = listed(to_index.deep_view().files, prefix_of(path_filter));
            let max = limit_of(max_symbols);
            let taken = missing_keys(after, before).len() + missing_keys(before, after).len();
            match r {
                Ok(diff) => {
                    &&& is_path_diff(view_from, view_to, before, after, max, diff.deep_view())
                    &&& forall|i: int|
                        0 <= i < diff.changed@.len() ==> (#[trigger] diff.changed@[i]).hunks@.len() > 0
                },
                Err(e) => taken <= max && comparing_failed(
                    view_from,
                    view_to,
                    before,
                    after,
                    max - taken,
                    e.deep_view(),
                ),
            }
        }),
        // Without a filter everything is listed, and without a limit fifty symbols.
        ({
            let prefix = match path_filter {
                Some(path) => path@,
                None => Seq::empty(),
            };
            let max = match max_symbols {
                Some(max) => max as nat,
                None => 50nat,
            };
            let before = listed(from_index.deep_view().files, prefix);
            let after = listed(to_index.deep_view().files, prefix);
            r matches Ok(diff) ==> is_path_diff(
                view_from,
                view_to,
                before,
                after,
                max,
                diff.deep_view(),
            )
        }),
{
    let max: usize = match max_symbols {
        Some(max) => max,
        None => DEFAULT_MAX_SYMBOLS,
    };
    proof {
        reveal_strlit("");
    }
    let prefix: &str = match path_filter {
        Some(prefix) => prefix,
        None => "",
    };
    assert(prefix@ =~= prefix_of(path_filter));
    let before = symbols_by_key(from_index, prefix);
    let after = symbols_by_key(to_index, prefix);
    diff_tables(&before, &after, max, view_from, view_to)
}

/// A table of symbols has finitely many keys.
proof fn lemma_by_key_finite(entries: Seq<symbols::EntryModel>)
    ensures
        by_key(entries).dom().finite(),
{
    let keys = entries.map_values(|e: symbols::EntryModel| key_of(e));
    assert forall|key: Seq<char>| by_key(entries).dom().contains(key) implies keys.to_set().contains(key) by {
        let i = choose|i: int| is_first_with_key(entries, key, i);
        assert(keys[i] == key);
    }
    vstd::seq_lib::seq_to_set_is_finite(keys);
    vstd::set_lib::lemma_set_subset_finite(keys.to_set(), by_key(entries).dom());
}

/// The missing keys are those of the one table that the other lacks.
proof fn lemma_missing_keys(
    table: Map<Seq<char>, symbols::EntryModel>,
    other: Map<Seq<char>, symbols::EntryModel>,
    key: Seq<char>,
)
    requires
        table.dom().finite(),
    ensures
        missing_keys(table, other).contains(key) <==> table.contains_key(key) && !other.contains_key(
            key,
        ),
{
    let keys = order::ascending(table.dom());
    let lacks = |key: Seq<char>| !other.contains_key(key);
    order::ascending_lists_the_set(table.dom());
    if keys.filter(lacks).contains(key) {
        keys.lemma_filter_contains_rev(lacks, key);
        assert(keys.to_set().contains(key));
        let i = choose|i: int| 0 <= i < keys.filter(lacks).len() && keys.filter(lacks)[i] == key;
        keys.lemma_filter_pred(lacks, i);
    }
    if table.contains_key(key) && !other.contains_key(key) {
        assert(keys.to_set().contains(key));
        let i = choose|i: int| 0 <= i < keys.len() && keys[i] == key;
        keys.lemma_filter_contains(lacks, i);
    }
}

/// The common keys are those that both tables have.
proof fn lemma_common_key(
    before: Map<Seq<char>, symbols::EntryModel>,
    after: Map<Seq<char>, symbols::EntryModel>,
    i: int,
)
    requires
        before.dom().finite(),
        0 <= i < common_keys(before, after).len(),
    ensures
        before.contains_key(common_keys(before, after)[i]),
        after.contains_key(common_keys(before, after)[i]),
{
    let keys = order::ascending(before.dom());
    let shared = |key: Seq<char>| after.contains_key(key);
    order::ascending_lists_the_set(before.dom());
    keys.lemma_filter_pred(shared, i);
    let key = keys.filter(shared)[i];
    assert(keys.filter(shared).contains(key));
    keys.lemma_filter_contains_rev(shared, key);
    assert(keys.to_set().contains(key));
}

/// A key that both tables have is among the common ones.
proof fn lemma_key_is_common(
    before: Map<Seq<char>, symbols::EntryModel>,
    after: Map<Seq<char>, symbols::EntryModel>,
    key: Seq<char>,
) -> (k: int)
    requires
        before.dom().finite(),
        before.contains_key(key),
        after.contains_key(key),
    ensures
        0 <= k < common_keys(before, after).len(),
        common_keys(before, after)[k] == key,
{
    let keys = order::ascending(before.dom());
    let shared = |key: Seq<char>| after.contains_key(key);
    order::ascending_lists_the_set(before.dom());
    assert(keys.to_set().contains(key));
    let i = choose|i: int| 0 <= i < keys.len() && keys[i] == key;
    keys.lemma_filter_contains(shared, i);
    choose|k: int| 0 <= k < keys.filter(shared).len() && keys.filter(shared)[k] == key
}

/// Each of the diffs is that of a common symbol whose lines differ.
proof fn lemma_differing(
    before: Map<Seq<char>, symbols::EntryModel>,
    after: Map<Seq<char>, symbols::EntryModel>,
    reads: Seq<(hunks::Lines, hunks::Lines)>,
    i: int,
) -> (k: int)
    requires
        0 <= i < differing(before, after, reads).len(),
    ensures
        0 <= k < reads.len(),
        reads[k].0 != reads[k].1,
        differing(before, after, reads)[i] == common_diff(
            before,
            after,
            common_keys(before, after)[k],
            reads[k],
        ),
    decreases reads.len(),
{
    if i < differing(before, after, reads.drop_last()).len() {
        lemma_differing(before, after, reads.drop_last(), i)
    } else {
        reads.len() - 1
    }
}

/// Each common symbol whose lines differ has its diff.
proof fn lemma_has_diff(
    before: Map<Seq<char>, symbols::EntryModel>,
    after: Map<Seq<char>, symbols::EntryModel>,
    reads: Seq<(hunks::Lines, hunks::Lines)>,
    k: int,
) -> (i: int)
    requires
        0 <= k < reads.len(),
        reads[k].0 != reads[k].1,
    ensures
        0 <= i < differing(before, after, reads).len(),
        differing(before, after, reads)[i].symbol == common_keys(before, after)[k],
    decreases reads.len(),
{
    if k < reads.len() - 1 {
        lemma_has_diff(before, after, reads.drop_last(), k)
    } else {
        differing(before, after, reads).len() - 1
    }
}

/// A path diff lists no more symbols than its limit allows, and exactly as many
/// if it is cut short.
pub proof fn path_diffs_keep_to_their_limit<V, W>(
    view_from: &V,
    view_to: &W,
    before: Map<Seq<char>, symbols::EntryModel>,
    after: Map<Seq<char>, symbols::EntryModel>,
    max: nat,
    diff: PathDiffModel,
) where
    V: Fn(&str, u32, u32) -> Result<Vec<String>, String>,
    W: Fn(&str, u32, u32) -> Result<Vec<String>, String>,

    requires
        is_path_diff(view_from, view_to, before, after, max, diff),
    ensures
        diff.added.len() + diff.removed.len() + diff.changed.len() <= max,
        diff.truncated ==> diff.added.len() + diff.removed.len() + diff.changed.len() == max,
{
}

/// Whether a diff is that of a common symbol, made from lines that the views
/// showed of it and that differ: it has the old kind, both places, and the runs of
/// edited lines between the old and the new lines.
pub open spec fn is_changed<V, W>(
    view_from: &V,
    view_to: &W,
    before: Map<Seq<char>, symbols::EntryModel>,
    after: Map<Seq<char>, symbols::EntryModel>,
    diff: SymbolDiffModel,
) -> bool where
    V: Fn(&str, u32, u32) -> Result<Vec<String>, String>,
    W: Fn(&str, u32, u32) -> Result<Vec<String>, String>,
 {
    exists|old_lines: hunks::Lines, new_lines: hunks::Lines|
        {
            &&& #[trigger] are_excerpts(
                view_from,
                view_to,
                Some(before[diff.symbol]),
                Some(after[diff.symbol]),
                old_lines,
                new_lines,
            )
            &&& old_lines != new_lines
            &&& diff.kind == before[diff.symbol].kind
            &&& diff.before_path == Some(before[diff.symbol].path)
            &&& diff.before_line == Some(before[diff.symbol].line)
            &&& diff.after_path == Some(after[diff.symbol].path)
            &&& diff.after_line == Some(after[diff.symbol].line)
            &&& exists|starts: Seq<int>, ends: Seq<int>|
                hunks::are_runs(
                    diff.hunks,
                    hunks::similar_changes(old_lines, new_lines),
                    starts,
                    ends,
                )
        }
}

proof fn lemma_is_changed<V, W>(
    view_from: &V,
    view_to: &W,
    before: Map<Seq<char>, symbols::EntryModel>,
    after: Map<Seq<char>, symbols::EntryModel>,
    key: Seq<char>,
    lines: (hunks::Lines, hunks::Lines),
) where
    V: Fn(&str, u32, u32) -> Result<Vec<String>, String>,
    W: Fn(&str, u32, u32) -> Result<Vec<String>, String>,

    requires
        are_excerpts(
            view_from,
            view_to,
            Some(before[key]),
            Some(after[key]),
            lines.0,
            lines.1,
        ),
        lines.0 != lines.1,
    ensures
        is_changed(view_from, view_to, before, after, common_diff(before, after, key, lines)),
{
    hunks::line_diffs_hold_the_edited_lines(lines.0, lines.1);
    let diff = common_diff(before, after, key, lines);
    let (starts, ends) = choose|starts: Seq<int>, ends: Seq<int>|
        hunks::are_runs(diff.hunks, hunks::similar_changes(lines.0, lines.1), starts, ends);
    assert(hunks::are_runs(
        diff.hunks,
        hunks::similar_changes(lines.0, lines.1),
        starts,
        ends,
    ));
    assert(diff.symbol == key);
}

/// The added symbols are those that only the new version has, the removed ones
/// those that only the old version has; the changed ones both have, and the lines
/// shown of them differ. All added and removed symbols are listed unless the diff
/// is cut short.
pub proof fn path_diffs_tell_symbols_apart<V, W>(
    view_from: &V,
    view_to: &W,
    from_files: Map<Seq<char>, symbols::FileModel>,
    to_files: Map<Seq<char>, symbols::FileModel>,
    prefix: Seq<char>,
    max: nat,
    diff: PathDiffModel,
) where
    V: Fn(&str, u32, u32) -> Result<Vec<String>, String>,
    W: Fn(&str, u32, u32) -> Result<Vec<String>, String>,

    requires
        is_path_diff(
            view_from,
            view_to,
            listed(from_files, prefix),
            listed(to_files, prefix),
            max,
            diff,
        ),
    ensures
        ({
            let before = listed(from_files, prefix);
            let after = listed(to_files, prefix);
            &&& forall|i: int|
                0 <= i < diff.added.len() ==> after.contains_key((#[trigger] diff.added[i]).symbol)
                    && !before.contains_key(diff.added[i].symbol)
            &&& forall|i: int|
                0 <= i < diff.removed.len() ==> before.contains_key((#[trigger] diff.removed[i]).symbol)
                    && !after.contains_key(diff.removed[i].symbol)
            &&& forall|i: int|
                0 <= i < diff.changed.len() ==> before.contains_key((#[trigger] diff.changed[i]).symbol)
                    && after.contains_key(diff.changed[i].symbol) && is_changed(
                    view_from,
                    view_to,
                    before,
                    after,
                    diff.changed[i],
                )
            &&& !diff.truncated ==> forall|key: Seq<char>| #[trigger]
                after.contains_key(key) && !before.contains_key(key) ==> exists|i: int|
                    0 <= i < diff.added.len() && (#[trigger] diff.added[i]).symbol == key
            &&& !diff.truncated ==> forall|key: Seq<char>| #[trigger]
                before.contains_key(key) && !after.contains_key(key) ==> exists|i: int|
                    0 <= i < diff.removed.len() && (#[trigger] diff.removed[i]).symbol == key
        }),
{
    let before = listed(from_files, prefix);
    let after = listed(to_files, prefix);
    let in_scope = |e: symbols::EntryModel| prefix.is_prefix_of(e.path);
    lemma_by_key_finite(find::all_symbols(from_files).filter(in_scope));
    lemma_by_key_finite(find::all_symbols(to_files).filter(in_scope));
    let added = missing_keys(after, before);
    let removed = missing_keys(before, after);
    assert forall|i: int| 0 <= i < diff.added.len() implies after.contains_key(
        (#[trigger] diff.added[i]).symbol,
    ) && !before.contains_key(diff.added[i].symbol) by {
        assert(added[i] == diff.added[i].symbol);
        lemma_missing_keys(after, before, added[i]);
    }
    assert forall|i: int| 0 <= i < diff.removed.len() implies before.contains_key(
        (#[trigger] diff.removed[i]).symbol,
    ) && !after.contains_key(diff.removed[i].symbol) by {
        assert(removed[i] == diff.removed[i].symbol);
        lemma_missing_keys(before, after, removed[i]);
    }
    if diff.changed.len() > 0 {
        reveal(were_compared);
        let room = max - added.len() - removed.len();
        let reads = choose|reads: Seq<(hunks::Lines, hunks::Lines)>|
            {
                &&& #[trigger] were_compared(view_from, view_to, before, after, room, reads)
                &&& diff.changed == differing(before, after, reads)
                &&& diff.truncated == (reads.len() < common_keys(before, after).len())
            };
        assert forall|i: int| 0 <= i < diff.changed.len() implies before.contains_key(
            (#[trigger] diff.changed[i]).symbol,
        ) && after.contains_key(diff.changed[i].symbol) && is_changed(
            view_from,
            view_to,
            before,
            after,
            diff.changed[i],
        ) by {
            let k = lemma_differing(before, after, reads, i);
            lemma_common_key(before, after, k);
            let lines = reads[k];
            assert(are_excerpts(
                view_from,
                view_to,
                Some(before[diff.changed[i].symbol]),
                Some(after[diff.changed[i].symbol]),
                lines.0,
                lines.1,
            ));
            lemma_is_changed(
                view_from,
                view_to,
                before,
                after,
                common_keys(before, after)[k],
                lines,
            );
        }
    }
    if !diff.truncated {
        assert forall|key: Seq<char>| #[trigger]
            after.contains_key(key) && !before.contains_key(key) implies exists|i: int|
            0 <= i < diff.added.len() && (#[trigger] diff.added[i]).symbol == key by {
            lemma_missing_keys(after, before, key);
            let i = choose|i: int| 0 <= i < added.len() && added[i] == key;
            assert(diff.added[i].symbol == key);
        }
        assert forall|key: Seq<char>| #[trigger]
            before.contains_key(key) && !after.contains_key(key) implies exists|i: int|
            0 <= i < diff.removed.len() && (#[trigger] diff.removed[i]).symbol == key by {
            lemma_missing_keys(before, after, key);
            let i = choose|i: int| 0 <= i < removed.len() && removed[i] == key;
            assert(diff.removed[i].symbol == key);
        }
    }
}

/// Of a symbol that both versions have, and that a diff which is not cut short
/// does not list as changed, the views showed the same lines.
pub proof fn symbols_not_listed_are_unchanged<V, W>(
    view_from: &V,
    view_to: &W,
    from_files: Map<Seq<char>, symbols::FileModel>,
    to_files: Map<Seq<char>, symbols::FileModel>,
    prefix: Seq<char>,
    max: nat,
    diff: PathDiffModel,
    key: Seq<char>,
) where
    V: Fn(&str, u32, u32) -> Result<Vec<String>, String>,
    W: Fn(&str, u32, u32) -> Result<Vec<String>, String>,

    requires
        is_path_diff(
            view_from,
            view_to,
            listed(from_files, prefix),
            listed(to_files, prefix),
            max,
            diff,
        ),
        !diff.truncated,
        listed(from_files, prefix).contains_key(key),
        listed(to_files, prefix).contains_key(key),
        forall|i: int| 0 <= i < diff.changed.len() ==> (#[trigger] diff.changed[i]).symbol != key,
    ensures
        exists|lines: hunks::Lines|
            #[trigger] is_excerpt(view_from, Some(listed(from_files, prefix)[key]), lines)
                && is_excerpt(view_to, Some(listed(to_files, prefix)[key]), lines),
{
    let before = listed(from_files, prefix);
    let after = listed(to_files, prefix);
    let in_scope = |e: symbols::EntryModel| prefix.is_prefix_of(e.path);
    lemma_by_key_finite(find::all_symbols(from_files).filter(in_scope));
    let room = max - missing_keys(after, before).len() - missing_keys(before, after).len();
    let reads = choose|reads: Seq<(hunks::Lines, hunks::Lines)>|
        {
            &&& #[trigger] were_compared(view_from, view_to, before, after, room, reads)
            &&& diff.changed == differing(before, after, reads)
            &&& diff.truncated == (reads.len() < common_keys(before, after).len())
        };
    reveal(were_compared);
    let k = lemma_key_is_common(before, after, key);
    let lines = reads[k];
    if lines.0 != lines.1 {
        let i = lemma_has_diff(before, after, reads, k);
        assert(diff.changed[i].symbol == key);
    }
    assert(is_excerpt(view_from, Some(before[key]), lines.0));
}

/// What is cut off a list of missing keys comes behind all that is listed.
proof fn lemma_cut_missing(
    table: Map<Seq<char>, symbols::EntryModel>,
    other: Map<Seq<char>, symbols::EntryModel>,
    room: nat,
)
    requires
        table.dom().finite(),
    ensures
        ({
            let list = cut(missing_keys(table, other), room);
            &&& list.len() <= room
            &&& forall|n: int, m: int|
                0 <= n < m < list.len() ==> order::precedes(#[trigger] list[n], #[trigger] list[m])
            &&& forall|n: int|
                0 <= n < list.len() ==> table.contains_key(#[trigger] list[n]) && !other.contains_key(
                    list[n],
                )
            &&& forall|key: Seq<char>| #[trigger]
                table.contains_key(key) && !other.contains_key(key) ==> list.contains(key) || {
                    &&& list.len() == room
                    &&& missing_keys(table, other).len() > room
                    &&& forall|n: int| 0 <= n < list.len() ==> order::precedes(#[trigger] list[n], key)
                }
            &&& missing_keys(table, other).len() > room ==> exists|key: Seq<char>| #[trigger]
                table.contains_key(key) && !other.contains_key(key) && !list.contains(key)
        }),
{
    let missing = missing_keys(table, other);
    let list = cut(missing, room);
    order::ascending_lists_the_set(table.dom());
    order::lemma_filter_ascends(
        order::ascending(table.dom()),
        |key: Seq<char>| !other.contains_key(key),
    );
    assert(order::is_ascending(missing));
    assert forall|n: int, m: int| 0 <= n < m < list.len() implies order::precedes(
        #[trigger] list[n],
        #[trigger] list[m],
    ) by {
        assert(order::precedes(missing[n], missing[m]));
    }
    assert forall|n: int| 0 <= n < list.len() implies table.contains_key(#[trigger] list[n])
        && !other.contains_key(list[n]) by {
        assert(missing[n] == list[n]);
        lemma_missing_keys(table, other, list[n]);
    }
    assert forall|key: Seq<char>| #[trigger]
        table.contains_key(key) && !other.contains_key(key) implies list.contains(key) || {
        &&& list.len() == room
        &&& missing.len() > room
        &&& forall|n: int| 0 <= n < list.len() ==> order::precedes(#[trigger] list[n], key)
    } by {
        lemma_missing_keys(table, other, key);
        let m = choose|m: int| 0 <= m < missing.len() && missing[m] == key;
        if m < list.len() {
            assert(list[m] == key);
        } else {
            assert forall|n: int| 0 <= n < list.len() implies order::precedes(#[trigger] list[n], key) by {
                assert(order::precedes(missing[n], missing[m]));
            }
        }
    }
    if missing.len() > room {
        let key = missing[room as int];
        assert(missing.contains(key));
        lemma_missing_keys(table, other, key);
        if list.contains(key) {
            let n = choose|n: int| 0 <= n < list.len() && list[n] == key;
            assert(order::precedes(missing[n], missing[room as int]));
            order::order_is_asymmetric(key, key);
        }
    }
}

/// A path diff lists, in the ascending order of their keys, the symbols that only
/// the new table has, then those that only the old one has, each with its kind and
/// its path. What does not fit is what comes last: it is left out only where the
/// diff is full and marked as cut short, and nothing is listed after it.
pub proof fn path_diffs_list_added_then_removed<V, W>(
    view_from: &V,
    view_to: &W,
    before: Map<Seq<char>, symbols::EntryModel>,
    after: Map<Seq<char>, symbols::EntryModel>,
    max: nat,
    diff: PathDiffModel,
) where
    V: Fn(&str, u32, u32) -> Result<Vec<String>, String>,
    W: Fn(&str, u32, u32) -> Result<Vec<String>, String>,

    requires
        before.dom().finite(),
        after.dom().finite(),
        is_path_diff(view_from, view_to, before, after, max, diff),
    ensures
        forall|n: int|
            0 <= n < diff.added.len() ==> {
                let key = (#[trigger] diff.added[n]).symbol;
                &&& after.contains_key(key)
                &&& !before.contains_key(key)
                &&& diff.added[n].kind == after[key].kind
                &&& diff.added[n].path == after[key].path
            },
        forall|n: int, m: int|
            0 <= n < m < diff.added.len() ==> order::precedes(
                (#[trigger] diff.added[n]).symbol,
                (#[trigger] diff.added[m]).symbol,
            ),
        forall|key: Seq<char>| #[trigger]
            after.contains_key(key) && !before.contains_key(key) ==> {
                ||| exists|n: int| 0 <= n < diff.added.len() && (#[trigger] diff.added[n]).symbol == key
                ||| {
                    &&& diff.added.len() == max
                    &&& diff.removed.len() == 0
                    &&& diff.changed.len() == 0
                    &&& diff.truncated
                    &&& forall|n: int|
                        0 <= n < diff.added.len() ==> order::precedes(
                            (#[trigger] diff.added[n]).symbol,
                            key,
                        )
                }
            },
        forall|n: int|
            0 <= n < diff.removed.len() ==> {
                let key = (#[trigger] diff.removed[n]).symbol;
                &&& before.contains_key(key)
                &&& !after.contains_key(key)
                &&& diff.removed[n].kind == before[key].kind
                &&& diff.removed[n].path == before[key].path
            },
        forall|n: int, m: int|
            0 <= n < m < diff.removed.len() ==> order::precedes(
                (#[trigger] diff.removed[n]).symbol,
                (#[trigger] diff.removed[m]).symbol,
            ),
        forall|key: Seq<char>| #[trigger]
            before.contains_key(key) && !after.contains_key(key) ==> {
                ||| exists|n: int|
                    0 <= n < diff.removed.len() && (#[trigger] diff.removed[n]).symbol == key
                ||| {
                    &&& diff.added.len() + diff.removed.len() == max
                    &&& diff.changed.len() == 0
                    &&& diff.truncated
                    &&& forall|n: int|
                        0 <= n < diff.removed.len() ==> order::precedes(
                            (#[trigger] diff.removed[n]).symbol,
                            key,
                        )
                }
            },
{
    let added = cut(missing_keys(after, before), max);
    lemma_cut_missing(after, before, max);
    assert(diff.added.len() == added.len());
    assert forall|n: int| 0 <= n < diff.added.len() implies {
        let key = (#[trigger] diff.added[n]).symbol;
        &&& key == added[n]
        &&& after.contains_key(key)
        &&& !before.contains_key(key)
        &&& diff.added[n].kind == after[key].kind
        &&& diff.added[n].path == after[key].path
    } by {
        assert(after.contains_key(added[n]));
    }
    assert forall|n: int, m: int| 0 <= n < m < diff.added.len() implies order::precedes(
        (#[trigger] diff.added[n]).symbol,
        (#[trigger] diff.added[m]).symbol,
    ) by {
        assert(order::precedes(added[n], added[m]));
    }
    assert forall|key: Seq<char>| #[trigger] after.contains_key(key) && !before.contains_key(key) implies {
        ||| exists|n: int| 0 <= n < diff.added.len() && (#[trigger] diff.added[n]).symbol == key
        ||| {
            &&& diff.added.len() == max
            &&& diff.removed.len() == 0
            &&& diff.changed.len() == 0
            &&& diff.truncated
            &&& forall|n: int|
                0 <= n < diff.added.len() ==> order::precedes((#[trigger] diff.added[n]).symbol, key)
        }
    } by {
        if added.contains(key) {
            let n = choose|n: int| 0 <= n < added.len() && added[n] == key;
            assert(diff.added[n].symbol == key);
        } else {
            assert forall|n: int| 0 <= n < diff.added.len() implies order::precedes(
                (#[trigger] diff.added[n]).symbol,
                key,
            ) by {
                assert(order::precedes(added[n], key));
            }
        }
    }
    if missing_keys(after, before).len() > max {
        assert(diff.removed.len() == 0);
        assert(diff.added.len() == max);
        assert forall|key: Seq<char>| #[trigger] before.contains_key(key) && !after.contains_key(key) implies {
            ||| exists|n: int| 0 <= n < diff.removed.len() && (#[trigger] diff.removed[n]).symbol == key
            ||| {
                &&& diff.added.len() + diff.removed.len() == max
                &&& diff.changed.len() == 0
                &&& diff.truncated
                &&& forall|n: int|
                    0 <= n < diff.removed.len() ==> order::precedes(
                        (#[trigger] diff.removed[n]).symbol,
                        key,
                    )
            }
        } by {}
    } else {
        let room = (max - missing_keys(after, before).len()) as nat;
        let removed = cut(missing_keys(before, after), room);
        lemma_cut_missing(before, after, room);
        assert(diff.removed.len() == removed.len());
        assert forall|n: int| 0 <= n < diff.removed.len() implies {
            let key = (#[trigger] diff.removed[n]).symbol;
            &&& key == removed[n]
            &&& before.contains_key(key)
            &&& !after.contains_key(key)
            &&& diff.removed[n].kind == before[key].kind
            &&& diff.removed[n].path == before[key].path
        } by {
            assert(before.contains_key(removed[n]));
        }
        assert forall|n: int, m: int| 0 <= n < m < diff.removed.len() implies order::precedes(
            (#[trigger] diff.removed[n]).symbol,
            (#[trigger] diff.removed[m]).symbol,
        ) by {
            assert(order::precedes(removed[n], removed[m]));
        }
        assert forall|key: Seq<char>| #[trigger] before.contains_key(key) && !after.contains_key(key) implies {
            ||| exists|n: int| 0 <= n < diff.removed.len() && (#[trigger] diff.removed[n]).symbol == key
            ||| {
                &&& diff.added.len() + diff.removed.len() == max
                &&& diff.changed.len() == 0
                &&& diff.truncated
                &&& forall|n: int|
                    0 <= n < diff.removed.len() ==> order::precedes(
                        (#[trigger] diff.removed[n]).symbol,
                        key,
                    )
            }
        } by {
            if removed.contains(key) {
                let n = choose|n: int| 0 <= n < removed.len() && removed[n] == key;
                assert(diff.removed[n].symbol == key);
            } else {
                assert forall|n: int| 0 <= n < diff.removed.len() implies order::precedes(
                    (#[trigger] diff.removed[n]).symbol,
                    key,
                ) by {
                    assert(order::precedes(removed[n], key));
                }
            }
        }
    }
}

/// The common symbols whose lines differ, by their position among the common ones.
proof fn lemma_differing_places(
    before: Map<Seq<char>, symbols::EntryModel>,
    after: Map<Seq<char>, symbols::EntryModel>,
    reads: Seq<(hunks::Lines, hunks::Lines)>,
) -> (places: Seq<int>)
    ensures
        places.len() == differing(before, after, reads).len(),
        forall|n: int|
            0 <= n < places.len() ==> {
                let k = #[trigger] places[n];
                &&& 0 <= k < reads.len()
                &&& reads[k].0 != reads[k].1
                &&& differing(before, after, reads)[n] == common_diff(
                    before,
                    after,
                    common_keys(before, after)[k],
                    reads[k],
                )
            },
        forall|n: int, m: int| 0 <= n < m < places.len() ==> places[n] < places[m],
        forall|k: int|
            0 <= k < reads.len() && (#[trigger] reads[k]).0 != reads[k].1 ==> places.contains(k),
    decreases reads.len(),
{
    if reads.len() == 0 {
        Seq::empty()
    } else {
        let rest = reads.drop_last();
        let last = reads.len() - 1;
        let passed = lemma_differing_places(before, after, rest);
        let places = if reads.last().0 == reads.last().1 {
            passed
        } else {
            passed.push(last)
        };
        assert forall|n: int| 0 <= n < places.len() implies {
            let k = #[trigger] places[n];
            &&& 0 <= k < reads.len()
            &&& reads[k].0 != reads[k].1
            &&& differing(before, after, reads)[n] == common_diff(
                before,
                after,
                common_keys(before, after)[k],
                reads[k],
            )
        } by {
            if n < passed.len() {
                assert(places[n] == passed[n]);
                assert(rest[passed[n]] == reads[passed[n]]);
            }
        }
        assert forall|k: int| 0 <= k < reads.len() && (#[trigger] reads[k]).0 != reads[k].1 implies places.contains(
            k,
        ) by {
            if k < last {
                assert(rest[k] == reads[k]);
                let n = choose|n: int| 0 <= n < passed.len() && passed[n] == k;
                assert(places[n] == k);
            } else {
                assert(places[places.len() - 1] == k);
            }
        }
        places
    }
}

/// Symbols whose lines are the same add nothing.
proof fn lemma_same_lines_add_nothing(
    before: Map<Seq<char>, symbols::EntryModel>,
    after: Map<Seq<char>, symbols::EntryModel>,
    reads: Seq<(hunks::Lines, hunks::Lines)>,
    n: int,
)
    requires
        0 <= n <= reads.len(),
        forall|k: int| n <= k < reads.len() ==> (#[trigger] reads[k]).0 == reads[k].1,
    ensures
        differing(before, after, reads.take(n)) == differing(before, after, reads),
    decreases reads.len(),
{
    if n < reads.len() {
        let rest = reads.drop_last();
        assert(reads[reads.len() - 1] == reads.last());
        assert forall|k: int| n <= k < rest.len() implies (#[trigger] rest[k]).0 == rest[k].1 by {
            assert(rest[k] == reads[k]);
        }
        lemma_same_lines_add_nothing(before, after, rest, n);
        assert(rest.take(n) =~= reads.take(n));
    } else {
        assert(reads.take(n) =~= reads);
    }
}

/// After the added and the removed symbols a path diff lists, in the ascending
/// order of their keys, the symbols that both tables have and of which the views
/// show different lines. A common symbol is left out if the views show the same
/// lines of it, or where the diff is full and marked as cut short, and then it
/// comes behind those listed. A diff is cut short exactly if something was not
/// listed for want of room, or was not looked at for want of room.
pub proof fn path_diffs_list_changed_last<V, W>(
    view_from: &V,
    view_to: &W,
    before: Map<Seq<char>, symbols::EntryModel>,
    after: Map<Seq<char>, symbols::EntryModel>,
    max: nat,
    diff: PathDiffModel,
) where
    V: Fn(&str, u32, u32) -> Result<Vec<String>, String>,
    W: Fn(&str, u32, u32) -> Result<Vec<String>, String>,

    requires
        before.dom().finite(),
        after.dom().finite(),
        is_path_diff(view_from, view_to, before, after, max, diff),
    ensures
        forall|n: int|
            0 <= n < diff.changed.len() ==> {
                let key = (#[trigger] diff.changed[n]).symbol;
                &&& before.contains_key(key)
                &&& after.contains_key(key)
                &&& is_changed(view_from, view_to, before, after, diff.changed[n])
            },
        forall|n: int, m: int|
            0 <= n < m < diff.changed.len() ==> order::precedes(
                (#[trigger] diff.changed[n]).symbol,
                (#[trigger] diff.changed[m]).symbol,
            ),
        forall|key: Seq<char>| #[trigger]
            before.contains_key(key) && after.contains_key(key) ==> {
                ||| exists|n: int|
                    0 <= n < diff.changed.len() && (#[trigger] diff.changed[n]).symbol == key
                ||| exists|lines: hunks::Lines|
                    are_excerpts(
                        view_from,
                        view_to,
                        Some(before[key]),
                        Some(after[key]),
                        lines,
                        lines,
                    )
                ||| {
                    &&& diff.added.len() + diff.removed.len() + diff.changed.len() == max
                    &&& diff.truncated
                    &&& forall|n: int|
                        0 <= n < diff.changed.len() ==> order::precedes(
                            (#[trigger] diff.changed[n]).symbol,
                            key,
                        )
                }
            },
        diff.truncated <==> {
            ||| exists|key: Seq<char>| #[trigger]
                after.contains_key(key) && !before.contains_key(key) && forall|n: int|
                    0 <= n < diff.added.len() ==> (#[trigger] diff.added[n]).symbol != key
            ||| exists|key: Seq<char>| #[trigger]
                before.contains_key(key) && !after.contains_key(key) && forall|n: int|
                    0 <= n < diff.removed.len() ==> (#[trigger] diff.removed[n]).symbol != key
            ||| diff.added.len() + diff.removed.len() + diff.changed.len() == max && exists|
                key: Seq<char>,
            | #[trigger]
                before.contains_key(key) && after.contains_key(key) && forall|n: int|
                    0 <= n < diff.changed.len() ==> order::precedes(
                        (#[trigger] diff.changed[n]).symbol,
                        key,
                    )
        },
{
    path_diffs_list_added_then_removed(view_from, view_to, before, after, max, diff);
    let only_new = missing_keys(after, before);
    let only_old = missing_keys(before, after);
    let taken = only_new.len() + only_old.len();
    if only_new.len() > max {
        lemma_cut_missing(after, before, max);
        let added = cut(only_new, max);
        let key = choose|key: Seq<char>| #[trigger]
            after.contains_key(key) && !before.contains_key(key) && !added.contains(key);
        assert forall|n: int| 0 <= n < diff.added.len() implies (#[trigger] diff.added[n]).symbol != key by {
            assert(added.contains(added[n]));
        }
        assert(after.contains_key(key));
    } else if taken > max {
        let room = (max - only_new.len()) as nat;
        lemma_cut_missing(before, after, room);
        let removed = cut(only_old, room);
        let key = choose|key: Seq<char>| #[trigger]
            before.contains_key(key) && !after.contains_key(key) && !removed.contains(key);
        assert forall|n: int| 0 <= n < diff.removed.len() implies (#[trigger] diff.removed[n]).symbol != key by {
            assert(removed.contains(removed[n]));
        }
        assert(before.contains_key(key));
    } else {
        lemma_changed_last(view_from, view_to, before, after, max, diff);
    }
}

/// The changed symbols of a diff that has room for the added and the removed ones.
proof fn lemma_changed_last<V, W>(
    view_from: &V,
    view_to: &W,
    before: Map<Seq<char>, symbols::EntryModel>,
    after: Map<Seq<char>, symbols::EntryModel>,
    max: nat,
    diff: PathDiffModel,
) where
    V: Fn(&str, u32, u32) -> Result<Vec<String>, String>,
    W: Fn(&str, u32, u32) -> Result<Vec<String>, String>,

    requires
        before.dom().finite(),
        after.dom().finite(),
        is_path_diff(view_from, view_to, before, after, max, diff),
        missing_keys(after, before).len() + missing_keys(before, after).len() <= max,
    ensures
        forall|n: int|
            0 <= n < diff.changed.len() ==> {
                let key = (#[trigger] diff.changed[n]).symbol;
                &&& before.contains_key(key)
                &&& after.contains_key(key)
                &&& is_changed(view_from, view_to, before, after, diff.changed[n])
            },
        forall|n: int, m: int|
            0 <= n < m < diff.changed.len() ==> order::precedes(
                (#[trigger] diff.changed[n]).symbol,
                (#[trigger] diff.changed[m]).symbol,
            ),
        forall|key: Seq<char>| #[trigger]
            before.contains_key(key) && after.contains_key(key) ==> {
                ||| exists|n: int|
                    0 <= n < diff.changed.len() && (#[trigger] diff.changed[n]).symbol == key
                ||| exists|lines: hunks::Lines|
                    are_excerpts(
                        view_from,
                        view_to,
                        Some(before[key]),
                        Some(after[key]),
                        lines,
                        lines,
                    )
                ||| {
                    &&& diff.added.len() + diff.removed.len() + diff.changed.len() == max
                    &&& diff.truncated
                    &&& forall|n: int|
                        0 <= n < diff.changed.len() ==> order::precedes(
                            (#[trigger] diff.changed[n]).symbol,
                            key,
                        )
                }
            },
        diff.truncated ==> diff.added.len() + diff.removed.len() + diff.changed.len() == max && exists|
            key: Seq<char>,
        | #[trigger]
            before.contains_key(key) && after.contains_key(key) && forall|n: int|
                0 <= n < diff.changed.len() ==> order::precedes((#[trigger] diff.changed[n]).symbol, key),
        diff.added.len() + diff.removed.len() + diff.changed.len() == max && (exists|
            key: Seq<char>,
        | #[trigger]
            before.contains_key(key) && after.contains_key(key) && forall|n: int|
                0 <= n < diff.changed.len() ==> order::precedes((#[trigger] diff.changed[n]).symbol, key))
            ==> diff.truncated,
        forall|key: Seq<char>| #[trigger]
            after.contains_key(key) && !before.contains_key(key) ==> exists|n: int|
                0 <= n < diff.added.len() && (#[trigger] diff.added[n]).symbol == key,
        forall|key: Seq<char>| #[trigger]
            before.contains_key(key) && !after.contains_key(key) ==> exists|n: int|
                0 <= n < diff.removed.len() && (#[trigger] diff.removed[n]).symbol == key,
{
    reveal(were_compared);
    let keys = common_keys(before, after);
    let only_new = missing_keys(after, before);
    let only_old = missing_keys(before, after);
    let room = max - only_new.len() - only_old.len();
    let reads = choose|reads: Seq<(hunks::Lines, hunks::Lines)>|
        {
            &&& #[trigger] were_compared(view_from, view_to, before, after, room, reads)
            &&& diff.changed == differing(before, after, reads)
            &&& diff.changed.len() <= room
            &&& diff.truncated == (reads.len() < keys.len())
            &&& diff.truncated ==> diff.changed.len() == room
        };
    let places = lemma_differing_places(before, after, reads);
    order::ascending_lists_the_set(before.dom());
    order::lemma_filter_ascends(
        order::ascending(before.dom()),
        |key: Seq<char>| after.contains_key(key),
    );
    assert(order::is_ascending(keys));
    assert forall|n: int| 0 <= n < diff.changed.len() implies {
        let key = (#[trigger] diff.changed[n]).symbol;
        &&& key == keys[places[n]]
        &&& before.contains_key(key)
        &&& after.contains_key(key)
        &&& is_changed(view_from, view_to, before, after, diff.changed[n])
    } by {
        let k = places[n];
        lemma_common_key(before, after, k);
        let lines = reads[k];
        assert(are_excerpts(
            view_from,
            view_to,
            Some(before[diff.changed[n].symbol]),
            Some(after[diff.changed[n].symbol]),
            lines.0,
            lines.1,
        ));
        lemma_is_changed(view_from, view_to, before, after, keys[k], lines);
    }
    assert forall|n: int, m: int| 0 <= n < m < diff.changed.len() implies order::precedes(
        (#[trigger] diff.changed[n]).symbol,
        (#[trigger] diff.changed[m]).symbol,
    ) by {
        assert(places[n] < places[m]);
        assert(order::precedes(keys[places[n]], keys[places[m]]));
    }
    assert forall|key: Seq<char>| #[trigger] before.contains_key(key) && after.contains_key(key) implies {
        ||| exists|n: int| 0 <= n < diff.changed.len() && (#[trigger] diff.changed[n]).symbol == key
        ||| exists|lines: hunks::Lines|
            are_excerpts(view_from, view_to, Some(before[key]), Some(after[key]), lines, lines)
        ||| {
            &&& diff.added.len() + diff.removed.len() + diff.changed.len() == max
            &&& diff.truncated
            &&& forall|n: int|
                0 <= n < diff.changed.len() ==> order::precedes(
                    (#[trigger] diff.changed[n]).symbol,
                    key,
                )
        }
    } by {
        let k = lemma_key_is_common(before, after, key);
        if k < reads.len() {
            let lines = reads[k];
            if lines.0 != lines.1 {
                let n = choose|n: int| 0 <= n < places.len() && places[n] == k;
                assert(diff.changed[n].symbol == key);
            } else {
                assert(are_excerpts(
                    view_from,
                    view_to,
                    Some(before[key]),
                    Some(after[key]),
                    lines.0,
                    lines.0,
                ));
            }
        } else {
            assert forall|n: int| 0 <= n < diff.changed.len() implies order::precedes(
                (#[trigger] diff.changed[n]).symbol,
                key,
            ) by {
                assert(order::precedes(keys[places[n]], keys[k]));
            }
        }
    }
    if diff.truncated {
        let k = reads.len() as int;
        let key = keys[k];
        lemma_common_key(before, after, k);
        assert forall|n: int| 0 <= n < diff.changed.len() implies order::precedes(
            (#[trigger] diff.changed[n]).symbol,
            key,
        ) by {
            assert(order::precedes(keys[places[n]], keys[k]));
        }
        assert(before.contains_key(key));
    }
    if diff.changed.len() == room && (exists|key: Seq<char>| #[trigger]
        before.contains_key(key) && after.contains_key(key) && forall|n: int|
            0 <= n < diff.changed.len() ==> order::precedes((#[trigger] diff.changed[n]).symbol, key)) {
        let key = choose|key: Seq<char>| #[trigger]
            before.contains_key(key) && after.contains_key(key) && forall|n: int|
                0 <= n < diff.changed.len() ==> order::precedes((#[trigger] diff.changed[n]).symbol, key);
        let k = lemma_key_is_common(before, after, key);
        if k < reads.len() {
            assert forall|l: int| k <= l < reads.len() implies (#[trigger] reads[l]).0 == reads[l].1 by {
                if reads[l].0 != reads[l].1 {
                    let n = choose|n: int| 0 <= n < places.len() && places[n] == l;
                    assert(order::precedes(diff.changed[n].symbol, key));
                    order::order_is_asymmetric(keys[l], keys[k]);
                    if k < l {
                        assert(order::precedes(keys[k], keys[l]));
                    }
                }
            }
            lemma_same_lines_add_nothing(before, after, reads, k);
            assert(reads[k] == (reads[k].0, reads[k].1));
            assert(differing(before, after, reads.take(k)).len() < room);
        }
    }
    assert forall|key: Seq<char>| #[trigger] after.contains_key(key) && !before.contains_key(key) implies exists|
        n: int,
    | 0 <= n < diff.added.len() && (#[trigger] diff.added[n]).symbol == key by {
        lemma_missing_keys(after, before, key);
        let n = choose|n: int| 0 <= n < only_new.len() && only_new[n] == key;
        assert(diff.added[n].symbol == key);
    }
    assert forall|key: Seq<char>| #[trigger] before.contains_key(key) && !after.contains_key(key) implies exists|
        n: int,
    | 0 <= n < diff.removed.len() && (#[trigger] diff.removed[n]).symbol == key by {
        lemma_missing_keys(before, after, key);
        let n = choose|n: int| 0 <= n < only_old.len() && only_old[n] == key;
        assert(diff.removed[n].symbol == key);
    }
}

/// Comparing fails only at a symbol that both tables have, by an error of a view
/// that was asked for it; of all common symbols before it the views showed the
/// lines.
pub proof fn comparing_fails_at_a_common_symbol<V, W>(
    view_from: &V,
    view_to: &W,
    before: Map<Seq<char>, symbols::EntryModel>,
    after: Map<Seq<char>, symbols::EntryModel>,
    room: int,
    e: error::ErrorModel,
) where
    V: Fn(&str, u32, u32) -> Result<Vec<String>, String>,
    W: Fn(&str, u32, u32) -> Result<Vec<String>, String>,

    requires
        before.dom().finite(),
        after.dom().finite(),
        comparing_failed(view_from, view_to, before, after, room, e),
    ensures
        room > 0,
        exists|key: Seq<char>|
            {
                &&& #[trigger] before.contains_key(key)
                &&& after.contains_key(key)
                &&& is_first_error(view_from, view_to, Some(before[key]), Some(after[key]), e)
                &&& forall|other: Seq<char>| #[trigger]
                    before.contains_key(other) && after.contains_key(other) && order::precedes(
                        other,
                        key,
                    ) ==> exists|old_lines: hunks::Lines, new_lines: hunks::Lines|
                        are_excerpts(
                            view_from,
                            view_to,
                            Some(before[other]),
                            Some(after[other]),
                            old_lines,
                            new_lines,
                        )
            },
{
    reveal(were_compared);
    let keys = common_keys(before, after);
    let reads = choose|reads: Seq<(hunks::Lines, hunks::Lines)>|
        {
            &&& #[trigger] were_compared(view_from, view_to, before, after, room, reads)
            &&& reads.len() < keys.len()
            &&& differing(before, after, reads).len() < room
            &&& is_first_error(
                view_from,
                view_to,
                Some(before[keys[reads.len() as int]]),
                Some(after[keys[reads.len() as int]]),
                e,
            )
        };
    let k = reads.len() as int;
    let key = keys[k];
    lemma_common_key(before, after, k);
    order::ascending_lists_the_set(before.dom());
    order::lemma_filter_ascends(
        order::ascending(before.dom()),
        |key: Seq<char>| after.contains_key(key),
    );
    assert(order::is_ascending(keys));
    assert forall|other: Seq<char>| #[trigger]
        before.contains_key(other) && after.contains_key(other) && order::precedes(other, key) implies exists|
        old_lines: hunks::Lines,
        new_lines: hunks::Lines,
    |
        are_excerpts(
            view_from,
            view_to,
            Some(before[other]),
            Some(after[other]),
            old_lines,
            new_lines,
        ) by {
        let l = lemma_key_is_common(before, after, other);
        order::order_is_asymmetric(other, key);
        if k < l {
            assert(order::precedes(keys[k], keys[l]));
        }
        assert(l < k);
        let lines = reads[l];
        assert(are_excerpts(
            view_from,
            view_to,
            Some(before[other]),
            Some(after[other]),
            lines.0,
            lines.1,
        ));
    }
    assert(before.contains_key(key));
}

/// A diff that is not cut short has in its added symbols each symbol below the path
/// in the new version, whatever its kind, whose key no symbol below the path in the
/// old version has, and in its removed ones each of the old version whose key none
/// of the new version has. Each symbol listed is such a one, with its kind and
/// path.
pub proof fn path_diffs_list_what_one_version_has<V, W>(
    view_from: &V,
    view_to: &W,
    from_files: Map<Seq<char>, symbols::FileModel>,
    to_files: Map<Seq<char>, symbols::FileModel>,
    prefix: Seq<char>,
    max: nat,
    diff: PathDiffModel,
) where
    V: Fn(&str, u32, u32) -> Result<Vec<String>, String>,
    W: Fn(&str, u32, u32) -> Result<Vec<String>, String>,

    requires
        from_files.dom().finite(),
        to_files.dom().finite(),
        is_path_diff(
            view_from,
            view_to,
            listed(from_files, prefix),
            listed(to_files, prefix),
            max,
            diff,
        ),
    ensures
        !diff.truncated ==> forall|place: find::Place| #[trigger]
            has_own_key(to_files, from_files, prefix, place) ==> exists|n: int|
                0 <= n < diff.added.len() && (#[trigger] diff.added[n]).symbol == key_of(
                    find::at_place(to_files, place),
                ),
        !diff.truncated ==> forall|place: find::Place| #[trigger]
            has_own_key(from_files, to_files, prefix, place) ==> exists|n: int|
                0 <= n < diff.removed.len() && (#[trigger] diff.removed[n]).symbol == key_of(
                    find::at_place(from_files, place),
                ),
        forall|n: int|
            0 <= n < diff.added.len() ==> is_only_in(to_files, from_files, prefix, #[trigger] diff.added[n]),
        forall|n: int|
            0 <= n < diff.removed.len() ==> is_only_in(from_files, to_files, prefix, #[trigger] diff.removed[n]),
{
    let before = listed(from_files, prefix);
    let after = listed(to_files, prefix);
    tables_list_all_below_the_path(from_files, prefix);
    tables_list_all_below_the_path(to_files, prefix);
    path_diffs_list_added_then_removed(view_from, view_to, before, after, max, diff);
    assert forall|place: find::Place| #[trigger]
        has_own_key(to_files, from_files, prefix, place) implies after.contains_key(
        key_of(find::at_place(to_files, place)),
    ) && !before.contains_key(key_of(find::at_place(to_files, place))) by {
        lemma_only_one_version(to_files, from_files, prefix, place);
    }
    assert forall|place: find::Place| #[trigger]
        has_own_key(from_files, to_files, prefix, place) implies before.contains_key(
        key_of(find::at_place(from_files, place)),
    ) && !after.contains_key(key_of(find::at_place(from_files, place))) by {
        lemma_only_one_version(from_files, to_files, prefix, place);
    }
    assert forall|n: int| 0 <= n < diff.added.len() implies is_only_in(
        to_files,
        from_files,
        prefix,
        #[trigger] diff.added[n],
    ) by {
        let place = lemma_listed_place(to_files, from_files, prefix, diff.added[n].symbol);
        assert(has_own_key(to_files, from_files, prefix, place));
    }
    assert forall|n: int| 0 <= n < diff.removed.len() implies is_only_in(
        from_files,
        to_files,
        prefix,
        #[trigger] diff.removed[n],
    ) by {
        let place = lemma_listed_place(from_files, to_files, prefix, diff.removed[n].symbol);
        assert(has_own_key(from_files, to_files, prefix, place));
    }
}

/// Whether a place of a version has a symbol below the path whose key no symbol
/// below the path in the other version has.
pub open spec fn has_own_key(
    files: Map<Seq<char>, symbols::FileModel>,
    other: Map<Seq<char>, symbols::FileModel>,
    prefix: Seq<char>,
    place: find::Place,
) -> bool {
    &&& find::has_place(files, place)
    &&& prefix.is_prefix_of(find::at_place(files, place).path)
    &&& forall|q: find::Place| #[trigger]
        find::has_place(other, q) && prefix.is_prefix_of(find::at_place(other, q).path) ==> key_of(
            find::at_place(other, q),
        ) != key_of(find::at_place(files, place))
}

/// Whether a summary is that of a symbol below the path whose key only this version
/// has.
pub open spec fn is_only_in(
    files: Map<Seq<char>, symbols::FileModel>,
    other: Map<Seq<char>, symbols::FileModel>,
    prefix: Seq<char>,
    summary: SummaryModel,
) -> bool {
    exists|place: find::Place|
        {
            &&& #[trigger] has_own_key(files, other, prefix, place)
            &&& summary.symbol == key_of(find::at_place(files, place))
            &&& summary.kind == find::at_place(files, place).kind
            &&& summary.path == find::at_place(files, place).path
        }
}

proof fn lemma_only_one_version(
    files: Map<Seq<char>, symbols::FileModel>,
    other: Map<Seq<char>, symbols::FileModel>,
    prefix: Seq<char>,
    place: find::Place,
)
    requires
        files.dom().finite(),
        other.dom().finite(),
        has_own_key(files, other, prefix, place),
    ensures
        listed(files, prefix).contains_key(key_of(find::at_place(files, place))),
        !listed(other, prefix).contains_key(key_of(find::at_place(files, place))),
{
    let key = key_of(find::at_place(files, place));
    tables_list_all_below_the_path(files, prefix);
    tables_list_all_below_the_path(other, prefix);
    if listed(other, prefix).contains_key(key) {
        let q = choose|q: find::Place|
            #[trigger] find::has_place(other, q) && prefix.is_prefix_of(find::at_place(other, q).path)
                && key_of(find::at_place(other, q)) == key;
        assert(find::has_place(other, q));
    }
}

/// A symbol that only one of two tables has stands in the one version.
proof fn lemma_listed_place(
    files: Map<Seq<char>, symbols::FileModel>,
    other: Map<Seq<char>, symbols::FileModel>,
    prefix: Seq<char>,
    key: Seq<char>,
) -> (place: find::Place)
    requires
        files.dom().finite(),
        other.dom().finite(),
        listed(files, prefix).contains_key(key),
        !listed(other, prefix).contains_key(key),
    ensures
        has_own_key(files, other, prefix, place),
        key_of(find::at_place(files, place)) == key,
        listed(files, prefix)[key] == find::at_place(files, place),
{
    tables_list_all_below_the_path(files, prefix);
    tables_list_all_below_the_path(other, prefix);
    let place = choose|first: find::Place|
        {
            &&& #[trigger] find::has_place(files, first)
            &&& listed(files, prefix)[key] == find::at_place(files, first)
            &&& prefix.is_prefix_of(find::at_place(files, first).path)
            &&& key_of(find::at_place(files, first)) == key
        };
    assert forall|q: find::Place| #[trigger]
        find::has_place(other, q) && prefix.is_prefix_of(find::at_place(other, q).path) implies key_of(
        find::at_place(other, q),
    ) != key_of(find::at_place(files, place)) by {
        assert(listed(other, prefix).contains_key(key_of(find::at_place(other, q))));
    }
    place
}

/// Two versions compared the other way round exchange what was added and what was
/// removed, unless a diff is cut short.
pub proof fn path_diffs_turn_around<V, W>(
    view_from: &V,
    view_to: &W,
    before: Map<Seq<char>, symbols::EntryModel>,
    after: Map<Seq<char>, symbols::EntryModel>,
    max: nat,
    diff: PathDiffModel,
    back: PathDiffModel,
) where
    V: Fn(&str, u32, u32) -> Result<Vec<String>, String>,
    W: Fn(&str, u32, u32) -> Result<Vec<String>, String>,

    requires
        is_path_diff(view_from, view_to, before, after, max, diff),
        is_path_diff(view_to, view_from, after, before, max, back),
        !diff.truncated,
        !back.truncated,
    ensures
        back.added == diff.removed,
        back.removed == diff.added,
{
}

/// The common keys of two tables are the same whichever comes first.
proof fn lemma_common_keys_turn_around(
    before: Map<Seq<char>, symbols::EntryModel>,
    after: Map<Seq<char>, symbols::EntryModel>,
)
    requires
        before.dom().finite(),
        after.dom().finite(),
    ensures
        common_keys(before, after) == common_keys(after, before),
{
    let there = common_keys(before, after);
    let back = common_keys(after, before);
    order::ascending_lists_the_set(before.dom());
    order::ascending_lists_the_set(after.dom());
    order::lemma_filter_ascends(
        order::ascending(before.dom()),
        |key: Seq<char>| after.contains_key(key),
    );
    order::lemma_filter_ascends(
        order::ascending(after.dom()),
        |key: Seq<char>| before.contains_key(key),
    );
    assert forall|key: Seq<char>| there.contains(key) <==> back.contains(key) by {
        if there.contains(key) {
            let k = choose|k: int| 0 <= k < there.len() && there[k] == key;
            lemma_common_key(before, after, k);
            let _ = lemma_key_is_common(after, before, key);
        }
        if back.contains(key) {
            let k = choose|k: int| 0 <= k < back.len() && back[k] == key;
            lemma_common_key(after, before, k);
            let _ = lemma_key_is_common(before, after, key);
        }
    }
    assert(there.to_set() =~= back.to_set());
    order::ascending_list_is_canonical(there);
    order::ascending_list_is_canonical(back);
}

/// The lines of each symbol with the versions exchanged.
spec fn turned_reads(reads: Seq<(hunks::Lines, hunks::Lines)>) -> Seq<(hunks::Lines, hunks::Lines)> {
    reads.map_values(|lines: (hunks::Lines, hunks::Lines)| (lines.1, lines.0))
}

/// Whether two lists of diffs exchange the places that they give, diff by diff.
pub open spec fn are_turned(diffs: Seq<SymbolDiffModel>, back: Seq<SymbolDiffModel>) -> bool {
    &&& diffs.len() == back.len()
    &&& forall|i: int| 0 <= i < diffs.len() ==> is_turned(#[trigger] diffs[i], #[trigger] back[i])
}

proof fn lemma_differing_turns_around(
    before: Map<Seq<char>, symbols::EntryModel>,
    after: Map<Seq<char>, symbols::EntryModel>,
    reads: Seq<(hunks::Lines, hunks::Lines)>,
)
    requires
        common_keys(before, after) == common_keys(after, before),
    ensures
        are_turned(
            differing(before, after, reads),
            differing(after, before, turned_reads(reads)),
        ),
    decreases reads.len(),
{
    if reads.len() > 0 {
        lemma_differing_turns_around(before, after, reads.drop_last());
        assert(turned_reads(reads).drop_last() =~= turned_reads(reads.drop_last()));
        assert(turned_reads(reads).last() == (reads.last().1, reads.last().0));
    }
}

/// Steady views compared the other way round show the same lines, as far as both
/// comparisons go.
proof fn lemma_reads_turn_around<V, W>(
    view_from: &V,
    view_to: &W,
    before: Map<Seq<char>, symbols::EntryModel>,
    after: Map<Seq<char>, symbols::EntryModel>,
    room: int,
    reads: Seq<(hunks::Lines, hunks::Lines)>,
    other: Seq<(hunks::Lines, hunks::Lines)>,
) where
    V: Fn(&str, u32, u32) -> Result<Vec<String>, String>,
    W: Fn(&str, u32, u32) -> Result<Vec<String>, String>,

    requires
        is_steady(view_from),
        is_steady(view_to),
        common_keys(before, after) == common_keys(after, before),
        were_compared(view_from, view_to, before, after, room, reads),
        were_compared(view_to, view_from, after, before, room, other),
        reads.len() <= other.len(),
        reads.len() < common_keys(before, after).len() ==> differing(before, after, reads).len()
            == room,
    ensures
        other == turned_reads(reads),
{
    reveal(were_compared);
    let keys = common_keys(before, after);
    let n = reads.len() as int;
    assert forall|i: int| 0 <= i < n implies #[trigger] other[i] == turned_reads(reads)[i] by {
        assert(reads[i] == (reads[i].0, reads[i].1));
        let (old_entry, new_entry) = (Some(before[keys[i]]), Some(after[keys[i]]));
        assert(is_excerpt(view_from, old_entry, reads[i].0));
        assert(is_excerpt(view_from, old_entry, other[i].1));
        assert(is_excerpt(view_to, new_entry, reads[i].1));
        assert(is_excerpt(view_to, new_entry, other[i].0));
    }
    assert(other.take(n) =~= turned_reads(reads));
    lemma_differing_turns_around(before, after, reads);
    if n < other.len() {
        assert(other[n] == (other[n].0, other[n].1));
        assert(differing(after, before, other.take(n)).len() < room);
    }
    assert(other =~= turned_reads(reads));
}

/// Two versions whose sources stay as they are, compared the other way round, are
/// cut short or not as before. Unless the added and the removed symbols alone
/// exceed the limit, these are exchanged, and the same symbols have changed, in the
/// same order and with their places exchanged.
pub proof fn path_diffs_of_steady_views_turn_around<V, W>(
    view_from: &V,
    view_to: &W,
    from_files: Map<Seq<char>, symbols::FileModel>,
    to_files: Map<Seq<char>, symbols::FileModel>,
    prefix: Seq<char>,
    max: nat,
    diff: PathDiffModel,
    back: PathDiffModel,
) where
    V: Fn(&str, u32, u32) -> Result<Vec<String>, String>,
    W: Fn(&str, u32, u32) -> Result<Vec<String>, String>,

    requires
        is_steady(view_from),
        is_steady(view_to),
        is_path_diff(
            view_from,
            view_to,
            listed(from_files, prefix),
            listed(to_files, prefix),
            max,
            diff,
        ),
        is_path_diff(
            view_to,
            view_from,
            listed(to_files, prefix),
            listed(from_files, prefix),
            max,
            back,
        ),
    ensures
        back.truncated == diff.truncated,
        ({
            let before = listed(from_files, prefix);
            let after = listed(to_files, prefix);
            let taken = missing_keys(after, before).len() + missing_keys(before, after).len();
            !diff.truncated || taken <= max ==> {
                &&& back.added == diff.removed
                &&& back.removed == diff.added
                &&& are_turned(diff.changed, back.changed)
            }
        }),
{
    let before = listed(from_files, prefix);
    let after = listed(to_files, prefix);
    let in_scope = |e: symbols::EntryModel| prefix.is_prefix_of(e.path);
    lemma_by_key_finite(find::all_symbols(from_files).filter(in_scope));
    lemma_by_key_finite(find::all_symbols(to_files).filter(in_scope));
    lemma_common_keys_turn_around(before, after);
    let taken = missing_keys(after, before).len() + missing_keys(before, after).len();
    if taken <= max {
        let room = max - taken;
        let reads = choose|reads: Seq<(hunks::Lines, hunks::Lines)>|
            {
                &&& #[trigger] were_compared(view_from, view_to, before, after, room, reads)
                &&& diff.changed == differing(before, after, reads)
                &&& diff.truncated == (reads.len() < common_keys(before, after).len())
                &&& diff.truncated ==> diff.changed.len() == room
            };
        let other = choose|other: Seq<(hunks::Lines, hunks::Lines)>|
            {
                &&& #[trigger] were_compared(view_to, view_from, after, before, room, other)
                &&& back.changed == differing(after, before, other)
                &&& back.truncated == (other.len() < common_keys(after, before).len())
                &&& back.truncated ==> back.changed.len() == room
            };
        if reads.len() <= other.len() {
            lemma_reads_turn_around(view_from, view_to, before, after, room, reads, other);
        } else {
            lemma_reads_turn_around(view_to, view_from, after, before, room, other, reads);
            assert(turned_reads(turned_reads(other)) =~= other);
        }
        lemma_differing_turns_around(before, after, reads);
    }
}

/// A version does not differ from itself, as long as its sources stay as they are.
pub proof fn a_version_does_not_differ_from_itself<V>(
    view: &V,
    files: Map<Seq<char>, symbols::FileModel>,
    prefix: Seq<char>,
    max: nat,
    diff: PathDiffModel,
) where V: Fn(&str, u32, u32) -> Result<Vec<String>, String>
    requires
        is_steady(view),
        is_path_diff(view, view, listed(files, prefix), listed(files, prefix), max, diff),
    ensures
        diff.added.len() == 0,
        diff.removed.len() == 0,
        diff.changed.len() == 0,
        max > 0 ==> !diff.truncated,
{
    let table = listed(files, prefix);
    path_diffs_tell_symbols_apart(view, view, files, files, prefix, max, diff);
    if diff.added.len() > 0 {
        assert(table.contains_key(diff.added[0].symbol));
    }
    if diff.removed.len() > 0 {
        assert(table.contains_key(diff.removed[0].symbol));
    }
    if diff.changed.len() > 0 {
        assert(is_changed(view, view, table, table, diff.changed[0]));
    }
    path_diffs_keep_to_their_limit(view, view, table, table, max, diff);
}

/// Fails if there is no reference cache for a version: `exists` tells whether its
/// directory, shown as `dir`, is there.
pub fn ensure_cache_dir(exists: bool, dir: &str, label: &str) -> (r: Result<(), ReferenceError>)
    ensures
        r is Ok <==> exists,
        r matches Err(e) ==> e.deep_view() == (error::ErrorModel::CacheMissing {
            label: label@,
            dir: dir@,
        }),
        r matches Err(e) ==> e is CacheMissing && e->label@ == label@ && e->dir@ == dir@,
{
    if !exists {
        return Err(
            ReferenceError::CacheMissing { label: label.to_string(), dir: dir.to_string() },
        );
    }
    Ok(())
}

} // verus!
