//! Line diffs: the hunks in which two lists of lines differ.
use vstd::prelude::*;

verus! {

/// What a change says of its line.
#[derive(Debug, Clone, Copy, PartialEq, Eq, Structural)]
pub enum LineTag {
    /// The line stands on both sides.
    Equal,
    /// The line stands on the old side only.
    Delete,
    /// The line stands on the new side only.
    Insert,
}

/// One line of an edit script.
#[derive(Debug, Clone, PartialEq, Eq)]
pub struct LineChange {
    pub tag: LineTag,
    pub value: String,
}

/// A place where two lists of lines differ: the lines that go, the lines that
/// come, and the line, counted from one, at which each side of it begins.
#[derive(Debug, Clone, PartialEq, Eq)]
pub struct Hunk {
    pub before: Vec<String>,
    pub after: Vec<String>,
    pub before_start: u32,
    pub after_start: u32,
}

/// A list of lines.
pub type Lines = Seq<Seq<char>>;

/// What a [`LineChange`] stands for.
pub struct ChangeModel {
    pub tag: LineTag,
    pub value: Seq<char>,
}

impl DeepView for LineChange {
    type V = ChangeModel;

    open spec fn deep_view(&self) -> ChangeModel {
        ChangeModel { tag: self.tag, value: self.value@ }
    }
}

/// What a [`Hunk`] stands for.
#[verifier::ext_equal]
pub struct HunkModel {
    pub before: Lines,
    pub after: Lines,
    pub before_start: int,
    pub after_start: int,
}

impl DeepView for Hunk {
    type V = HunkModel;

    open spec fn deep_view(&self) -> HunkModel {
        HunkModel {
            before: self.before.deep_view(),
            after: self.after.deep_view(),
            before_start: self.before_start as int,
            after_start: self.after_start as int,
        }
    }
}

/// The lines that an edit script starts from.
pub open spec fn old_side(script: Seq<ChangeModel>) -> Lines {
    script.filter(|c: ChangeModel| c.tag != LineTag::Insert).map_values(|c: ChangeModel| c.value)
}

/// The lines that an edit script leads to.
pub open spec fn new_side(script: Seq<ChangeModel>) -> Lines {
    script.filter(|c: ChangeModel| c.tag != LineTag::Delete).map_values(|c: ChangeModel| c.value)
}

/// Whether an edit script ends in a line that is not on both sides.
pub open spec fn ends_in_edit(script: Seq<ChangeModel>) -> bool {
    script.len() > 0 && script.last().tag != LineTag::Equal
}

/// A hunk without lines.
pub open spec fn hunk_at(before_start: int, after_start: int) -> HunkModel {
    HunkModel { before: Seq::empty(), after: Seq::empty(), before_start, after_start }
}

/// A hunk with one more edited line.
pub open spec fn with_edit(hunk: HunkModel, change: ChangeModel) -> HunkModel {
    if change.tag == LineTag::Delete {
        HunkModel { before: hunk.before.push(change.value), ..hunk }
    } else {
        HunkModel { after: hunk.after.push(change.value), ..hunk }
    }
}

/// The hunks of an edit script: one for each longest run of edited lines. A run
/// begins on the lines that follow what was passed on each side.
pub open spec fn hunks_of(script: Seq<ChangeModel>) -> Seq<HunkModel>
    decreases script.len(),
{
    if script.len() == 0 {
        Seq::empty()
    } else {
        let passed = script.drop_last();
        let change = script.last();
        let hunks = hunks_of(passed);
        if change.tag == LineTag::Equal {
            hunks
        } else if ends_in_edit(passed) {
            hunks.drop_last().push(with_edit(hunks.last(), change))
        } else {
            hunks.push(
                with_edit(
                    hunk_at(old_side(passed).len() + 1int, new_side(passed).len() + 1int),
                    change,
                ),
            )
        }
    }
}

/// What one more change adds to the two sides of an edit script.
proof fn lemma_sides_grow(script: Seq<ChangeModel>)
    requires
        script.len() > 0,
    ensures
        old_side(script) == if script.last().tag == LineTag::Insert {
            old_side(script.drop_last())
        } else {
            old_side(script.drop_last()).push(script.last().value)
        },
        new_side(script) == if script.last().tag == LineTag::Delete {
            new_side(script.drop_last())
        } else {
            new_side(script.drop_last()).push(script.last().value)
        },
{
    let passed = script.drop_last();
    let kept = |c: ChangeModel| c.tag != LineTag::Insert;
    let come = |c: ChangeModel| c.tag != LineTag::Delete;
    assert(script =~= passed.push(script.last()));
    passed.lemma_filter_push(script.last(), kept);
    passed.lemma_filter_push(script.last(), come);
    assert(old_side(script) =~= if script.last().tag == LineTag::Insert {
        old_side(passed)
    } else {
        old_side(passed).push(script.last().value)
    });
    assert(new_side(script) =~= if script.last().tag == LineTag::Delete {
        new_side(passed)
    } else {
        new_side(passed).push(script.last().value)
    });
}

/// How many lines of the old list lie before the end of a hunk.
pub open spec fn old_end(hunk: HunkModel) -> int {
    hunk.before_start - 1 + hunk.before.len()
}

/// How many lines of the new list lie before the end of a hunk.
pub open spec fn new_end(hunk: HunkModel) -> int {
    hunk.after_start - 1 + hunk.after.len()
}

/// Whether the two lists have the same lines outside of the hunks: before the
/// first, between each and the next, and behind the last.
pub open spec fn same_outside(hunks: Seq<HunkModel>, before: Lines, after: Lines) -> bool {
    &&& hunks.len() == 0 ==> before == after
    &&& hunks.len() > 0 ==> {
        &&& before.take(hunks.first().before_start - 1) == after.take(hunks.first().after_start - 1)
        &&& before.skip(old_end(hunks.last())) == after.skip(new_end(hunks.last()))
    }
    &&& forall|i: int, j: int|
        0 <= i && j == i + 1 && j < hunks.len() ==> before.subrange(
            old_end(#[trigger] hunks[i]),
            (#[trigger] hunks[j]).before_start - 1,
        ) == after.subrange(new_end(hunks[i]), hunks[j].after_start - 1)
}

/// Whether hunks stand where they say, between these two lists of lines: each
/// holds at least one line, its lines are those at its place on each side, at
/// least one line lies between it and the next, and the lines outside of the hunks
/// are the same on both sides.
pub open spec fn well_placed(hunks: Seq<HunkModel>, before: Lines, after: Lines) -> bool {
    &&& forall|i: int|
        0 <= i < hunks.len() ==> {
            let h = #[trigger] hunks[i];
            &&& h.before.len() + h.after.len() > 0
            &&& 1 <= h.before_start
            &&& 1 <= h.after_start
            &&& h.before_start - 1 + h.before.len() <= before.len()
            &&& h.after_start - 1 + h.after.len() <= after.len()
            &&& before.subrange(h.before_start - 1, h.before_start - 1 + h.before.len()) == h.before
            &&& after.subrange(h.after_start - 1, h.after_start - 1 + h.after.len()) == h.after
        }
    &&& forall|i: int, j: int|
        0 <= i < j < hunks.len() ==> {
            &&& (#[trigger] hunks[i]).before_start + hunks[i].before.len() < (#[trigger] hunks[j]).before_start
            &&& hunks[i].after_start + hunks[i].after.len() < hunks[j].after_start
        }
    &&& same_outside(hunks, before, after)
}

/// Where the last hunk of an edit script ends: at the end of both sides if the
/// script ends in an edit, before it otherwise.
spec fn last_hunk_ends(script: Seq<ChangeModel>) -> bool {
    let hunks = hunks_of(script);
    let old_lines = old_end(hunks.last());
    let new_lines = new_end(hunks.last());
    if ends_in_edit(script) {
        hunks.len() > 0 && old_lines == old_side(script).len() && new_lines == new_side(script).len()
    } else {
        hunks.len() > 0 ==> old_lines < old_side(script).len() && new_lines < new_side(script).len()
    }
}

/// The hunks of an edit script stand where they say, whatever the script.
pub proof fn hunks_are_well_placed(script: Seq<ChangeModel>)
    ensures
        well_placed(hunks_of(script), old_side(script), new_side(script)),
{
    lemma_hunks_placed(script);
}

proof fn lemma_hunks_placed(script: Seq<ChangeModel>)
    ensures
        well_placed(hunks_of(script), old_side(script), new_side(script)),
        last_hunk_ends(script),
    decreases script.len(),
{
    if script.len() > 0 {
        let hunks = hunks_of(script);
        let old_lines = old_side(script);
        let new_lines = new_side(script);
        lemma_hunks_placed(script.drop_last());
        assert forall|i: int| 0 <= i < hunks.len() implies {
            let h = #[trigger] hunks[i];
            &&& h.before.len() + h.after.len() > 0
            &&& 1 <= h.before_start
            &&& 1 <= h.after_start
            &&& h.before_start - 1 + h.before.len() <= old_lines.len()
            &&& h.after_start - 1 + h.after.len() <= new_lines.len()
            &&& old_lines.subrange(h.before_start - 1, h.before_start - 1 + h.before.len()) == h.before
            &&& new_lines.subrange(h.after_start - 1, h.after_start - 1 + h.after.len()) == h.after
        } by {
            lemma_hunk_in_place(script, i);
        }
        assert forall|i: int, j: int| 0 <= i < j < hunks.len() implies {
            &&& (#[trigger] hunks[i]).before_start + hunks[i].before.len() < (#[trigger] hunks[j]).before_start
            &&& hunks[i].after_start + hunks[i].after.len() < hunks[j].after_start
        } by {
            lemma_hunks_apart(script, i, j);
        }
        assert(same_outside(hunks, old_lines, new_lines)) by {
            lemma_same_outside(script);
        }
        lemma_last_hunk_ends(script);
    } else {
        assert(old_side(script) =~= new_side(script));
    }
}

/// One more change leaves each hunk where it says.
proof fn lemma_hunk_in_place(script: Seq<ChangeModel>, i: int)
    requires
        script.len() > 0,
        well_placed(
            hunks_of(script.drop_last()),
            old_side(script.drop_last()),
            new_side(script.drop_last()),
        ),
        last_hunk_ends(script.drop_last()),
        0 <= i < hunks_of(script).len(),
    ensures
        ({
            let h = hunks_of(script)[i];
            let old_lines = old_side(script);
            let new_lines = new_side(script);
            &&& h.before.len() + h.after.len() > 0
            &&& 1 <= h.before_start
            &&& 1 <= h.after_start
            &&& h.before_start - 1 + h.before.len() <= old_lines.len()
            &&& h.after_start - 1 + h.after.len() <= new_lines.len()
            &&& old_lines.subrange(h.before_start - 1, h.before_start - 1 + h.before.len()) == h.before
            &&& new_lines.subrange(h.after_start - 1, h.after_start - 1 + h.after.len()) == h.after
        }),
{
    let passed = script.drop_last();
    let hunks0 = hunks_of(passed);
    let (old0, new0) = (old_side(passed), new_side(passed));
    let (old1, new1) = (old_side(script), new_side(script));
    lemma_sides_grow(script);
    let h = hunks_of(script)[i];
    if i < hunks0.len() {
        let g = hunks0[i];
        assert(old0.subrange(g.before_start - 1, g.before_start - 1 + g.before.len()) == g.before);
        assert(new0.subrange(g.after_start - 1, g.after_start - 1 + g.after.len()) == g.after);
        assert(old1.subrange(g.before_start - 1, g.before_start - 1 + g.before.len()) =~= g.before);
        assert(new1.subrange(g.after_start - 1, g.after_start - 1 + g.after.len()) =~= g.after);
    }
    assert(old1.subrange(h.before_start - 1, h.before_start - 1 + h.before.len()) =~= h.before);
    assert(new1.subrange(h.after_start - 1, h.after_start - 1 + h.after.len()) =~= h.after);
}

/// One more change leaves the hunks apart.
proof fn lemma_hunks_apart(script: Seq<ChangeModel>, i: int, j: int)
    requires
        script.len() > 0,
        well_placed(
            hunks_of(script.drop_last()),
            old_side(script.drop_last()),
            new_side(script.drop_last()),
        ),
        last_hunk_ends(script.drop_last()),
        0 <= i < j < hunks_of(script).len(),
    ensures
        ({
            let hunks = hunks_of(script);
            &&& hunks[i].before_start + hunks[i].before.len() < hunks[j].before_start
            &&& hunks[i].after_start + hunks[i].after.len() < hunks[j].after_start
        }),
{
    let hunks0 = hunks_of(script.drop_last());
    if j < hunks0.len() {
        assert(hunks0[i].before_start + hunks0[i].before.len() < hunks0[j].before_start);
    } else if i < hunks0.len() - 1 {
        assert(hunks0[i].before_start + hunks0[i].before.len() < hunks0.last().before_start);
    }
}

/// One more change leaves the last hunk at the end of both sides, or before it.
proof fn lemma_last_hunk_ends(script: Seq<ChangeModel>)
    requires
        script.len() > 0,
        well_placed(
            hunks_of(script.drop_last()),
            old_side(script.drop_last()),
            new_side(script.drop_last()),
        ),
        last_hunk_ends(script.drop_last()),
    ensures
        last_hunk_ends(script),
{
    let hunks0 = hunks_of(script.drop_last());
    lemma_sides_grow(script);
    if hunks0.len() > 0 {
        assert(hunks0[hunks0.len() - 1] == hunks0.last());
    }
}

/// One more change leaves the lines outside of the hunks the same on both sides.
proof fn lemma_same_outside(script: Seq<ChangeModel>)
    requires
        script.len() > 0,
        well_placed(
            hunks_of(script.drop_last()),
            old_side(script.drop_last()),
            new_side(script.drop_last()),
        ),
        last_hunk_ends(script.drop_last()),
    ensures
        same_outside(hunks_of(script), old_side(script), new_side(script)),
{
    let hunks = hunks_of(script);
    lemma_sides_grow(script);
    if hunks.len() > 0 {
        lemma_same_at_the_ends(script);
    }
    assert forall|i: int, j: int| 0 <= i && j == i + 1 && j < hunks.len() implies old_side(
        script,
    ).subrange(old_end(#[trigger] hunks[i]), (#[trigger] hunks[j]).before_start - 1) == new_side(
        script,
    ).subrange(new_end(hunks[i]), hunks[j].after_start - 1) by {
        lemma_same_between(script, i);
    }
}

/// Before the first hunk and behind the last one the lines stay the same.
proof fn lemma_same_at_the_ends(script: Seq<ChangeModel>)
    requires
        script.len() > 0,
        hunks_of(script).len() > 0,
        well_placed(
            hunks_of(script.drop_last()),
            old_side(script.drop_last()),
            new_side(script.drop_last()),
        ),
        last_hunk_ends(script.drop_last()),
    ensures
        ({
            let first = hunks_of(script).first();
            let last = hunks_of(script).last();
            &&& old_side(script).take(first.before_start - 1) == new_side(script).take(
                first.after_start - 1,
            )
            &&& old_side(script).skip(old_end(last)) == new_side(script).skip(new_end(last))
        }),
{
    let passed = script.drop_last();
    let change = script.last();
    let hunks0 = hunks_of(passed);
    let hunks = hunks_of(script);
    let (old0, new0) = (old_side(passed), new_side(passed));
    let (old1, new1) = (old_side(script), new_side(script));
    lemma_sides_grow(script);
    let old_start = hunks.first().before_start - 1;
    let new_start = hunks.first().after_start - 1;
    if hunks0.len() > 0 {
        assert(hunks0[0] == hunks0.first());
        assert(old0.take(old_start) == new0.take(new_start));
        assert(old1.take(old_start) =~= old0.take(old_start));
        assert(new1.take(new_start) =~= new0.take(new_start));
    } else {
        assert(old1.take(old_start) =~= old0);
        assert(new1.take(new_start) =~= new0);
    }
    let old_last = old_end(hunks.last());
    let new_last = new_end(hunks.last());
    if change.tag == LineTag::Equal {
        assert(hunks0[hunks0.len() - 1] == hunks0.last());
        assert(old1.skip(old_last) =~= old0.skip(old_last).push(change.value));
        assert(new1.skip(new_last) =~= new0.skip(new_last).push(change.value));
    } else {
        assert(old1.skip(old_last) =~= Seq::empty());
        assert(new1.skip(new_last) =~= Seq::empty());
    }
}

/// Between a hunk and the next one the lines stay the same.
proof fn lemma_same_between(script: Seq<ChangeModel>, i: int)
    requires
        script.len() > 0,
        0 <= i < hunks_of(script).len() - 1,
        well_placed(
            hunks_of(script.drop_last()),
            old_side(script.drop_last()),
            new_side(script.drop_last()),
        ),
        last_hunk_ends(script.drop_last()),
    ensures
        ({
            let hunk = hunks_of(script)[i];
            let next = hunks_of(script)[i + 1];
            old_side(script).subrange(old_end(hunk), next.before_start - 1) == new_side(
                script,
            ).subrange(new_end(hunk), next.after_start - 1)
        }),
{
    let passed = script.drop_last();
    let hunks0 = hunks_of(passed);
    let hunks = hunks_of(script);
    let (old0, new0) = (old_side(passed), new_side(passed));
    let (old1, new1) = (old_side(script), new_side(script));
    let j = i + 1;
    let (a, b) = (old_end(hunks[i]), hunks[j].before_start - 1);
    let (c, d) = (new_end(hunks[i]), hunks[j].after_start - 1);
    lemma_sides_grow(script);
    assert(hunks0[i] == hunks[i]);
    if j < hunks0.len() {
        assert(hunks0[j].before_start == hunks[j].before_start);
        assert(old0.subrange(a, b) == new0.subrange(c, d));
    } else {
        assert(hunks0[i] == hunks0.last());
        assert(old0.subrange(a, b) =~= old0.skip(a));
        assert(new0.subrange(c, d) =~= new0.skip(c));
    }
    assert(old1.subrange(a, b) =~= old0.subrange(a, b));
    assert(new1.subrange(c, d) =~= new0.subrange(c, d));
}

/// Where the hunks of an edit script stand on its old side, and where the last one
/// ends.
proof fn lemma_hunks_stand(script: Seq<ChangeModel>)
    ensures
        forall|i: int|
            0 <= i < hunks_of(script).len() ==> {
                &&& 1 <= (#[trigger] hunks_of(script)[i]).before_start
                &&& old_end(hunks_of(script)[i]) <= old_side(script).len()
            },
        forall|i: int, j: int|
            0 <= i < j < hunks_of(script).len() ==> (#[trigger] hunks_of(script)[i]).before_start
                + hunks_of(script)[i].before.len() < (#[trigger] hunks_of(script)[j]).before_start,
        last_hunk_ends(script),
{
    lemma_hunks_placed(script);
}

/// The lines with the place of one hunk exchanged.
pub open spec fn exchanged(lines: Lines, hunk: HunkModel) -> Lines {
    lines.take(hunk.before_start - 1) + hunk.after + lines.skip(
        hunk.before_start - 1 + hunk.before.len(),
    )
}

/// The lines with the place of every hunk exchanged, from the last hunk to the
/// first, so that the places of those still to come stay true.
pub open spec fn patched(lines: Lines, hunks: Seq<HunkModel>) -> Lines
    decreases hunks.len(),
{
    if hunks.len() == 0 {
        lines
    } else {
        patched(exchanged(lines, hunks.last()), hunks.drop_last())
    }
}

/// Lines behind the last hunk stay as they are.
proof fn lemma_patch_keeps_tail(lines: Lines, tail: Lines, hunks: Seq<HunkModel>)
    requires
        forall|i: int|
            0 <= i < hunks.len() ==> {
                &&& 1 <= (#[trigger] hunks[i]).before_start
                &&& hunks[i].before_start - 1 + hunks[i].before.len() <= lines.len()
            },
        forall|i: int, j: int|
            0 <= i < j < hunks.len() ==> (#[trigger] hunks[i]).before_start + hunks[i].before.len()
                < (#[trigger] hunks[j]).before_start,
    ensures
        patched(lines + tail, hunks) == patched(lines, hunks) + tail,
    decreases hunks.len(),
{
    if hunks.len() > 0 {
        let last = hunks.last();
        assert(exchanged(lines + tail, last) =~= exchanged(lines, last) + tail);
        lemma_patch_keeps_tail(exchanged(lines, last), tail, hunks.drop_last());
    }
}

/// Exchanging the hunks of an edit script in its old side gives its new side.
pub proof fn hunks_lead_from_old_to_new(script: Seq<ChangeModel>)
    ensures
        patched(old_side(script), hunks_of(script)) == new_side(script),
    decreases script.len(),
{
    if script.len() == 0 {
        assert(old_side(script) =~= new_side(script));
    } else {
        let passed = script.drop_last();
        let change = script.last();
        let old0 = old_side(passed);
        let hunks0 = hunks_of(passed);
        let line = seq![change.value];
        hunks_lead_from_old_to_new(passed);
        lemma_hunks_stand(passed);
        lemma_sides_grow(script);
        assert(old0.push(change.value) =~= old0 + line);
        assert(new_side(passed).push(change.value) =~= new_side(passed) + line);
        if change.tag == LineTag::Equal {
            lemma_patch_keeps_tail(old0, line, hunks0);
        } else {
            let fresh = hunk_at(old0.len() + 1int, new_side(passed).len() + 1int);
            let open = if ends_in_edit(passed) {
                hunks0.last()
            } else {
                fresh
            };
            let closed = if ends_in_edit(passed) {
                hunks0.drop_last()
            } else {
                hunks0
            };
            let last = with_edit(open, change);
            assert(hunks_of(script).last() == last);
            assert(hunks_of(script).drop_last() =~= closed);
            assert(exchanged(old0, fresh) =~= old0);
            assert(patched(exchanged(old0, open), closed) == new_side(passed));
            if change.tag == LineTag::Delete {
                assert(exchanged(old0 + line, last) =~= exchanged(old0, open));
            } else {
                assert(exchanged(old0, last) =~= exchanged(old0, open) + line);
                lemma_patch_keeps_tail(exchanged(old0, open), line, closed);
            }
        }
    }
}

/// The tag of the same change seen from the other side.
pub open spec fn turned_tag(tag: LineTag) -> LineTag {
    match tag {
        LineTag::Equal => LineTag::Equal,
        LineTag::Delete => LineTag::Insert,
        LineTag::Insert => LineTag::Delete,
    }
}

/// The edit script that undoes an edit script.
pub open spec fn turned_script(script: Seq<ChangeModel>) -> Seq<ChangeModel> {
    script.map_values(|c: ChangeModel| ChangeModel { tag: turned_tag(c.tag), value: c.value })
}

/// The hunk with its sides exchanged.
pub open spec fn turned_hunk(hunk: HunkModel) -> HunkModel {
    HunkModel {
        before: hunk.after,
        after: hunk.before,
        before_start: hunk.after_start,
        after_start: hunk.before_start,
    }
}

/// The hunks with their sides exchanged.
pub open spec fn turned(hunks: Seq<HunkModel>) -> Seq<HunkModel> {
    hunks.map_values(|h: HunkModel| turned_hunk(h))
}

proof fn lemma_turned_script(script: Seq<ChangeModel>)
    ensures
        old_side(turned_script(script)) == new_side(script),
        new_side(turned_script(script)) == old_side(script),
        hunks_of(turned_script(script)) == turned(hunks_of(script)),
    decreases script.len(),
{
    let other = turned_script(script);
    if script.len() == 0 {
        assert(old_side(other) =~= new_side(script));
        assert(new_side(other) =~= old_side(script));
        assert(hunks_of(other) =~= turned(hunks_of(script)));
    } else {
        let passed = script.drop_last();
        lemma_turned_script(passed);
        assert(other.drop_last() =~= turned_script(passed));
        lemma_sides_grow(script);
        lemma_sides_grow(other);
        lemma_hunks_placed(passed);
        assert(hunks_of(other) =~= turned(hunks_of(script)));
    }
}

/// Exchanging the turned hunks of an edit script in its new side gives its old
/// side back.
pub proof fn turned_hunks_lead_back(script: Seq<ChangeModel>)
    ensures
        patched(new_side(script), turned(hunks_of(script))) == old_side(script),
{
    lemma_turned_script(script);
    hunks_lead_from_old_to_new(turned_script(script));
}

/// An edit script without hunks has the same lines on both sides.
pub proof fn no_hunks_means_no_difference(script: Seq<ChangeModel>)
    requires
        hunks_of(script).len() == 0,
    ensures
        old_side(script) == new_side(script),
{
    hunks_lead_from_old_to_new(script);
}

/// The hunks of an edit script hold the deleted lines and the inserted ones, in
/// order and nothing else: no line that stands on both sides is in a hunk.
pub proof fn hunks_hold_the_edited_lines(script: Seq<ChangeModel>)
    ensures
        hunks_of(script).map_values(|h: HunkModel| h.before).flatten() == script.filter(
            |c: ChangeModel| c.tag == LineTag::Delete,
        ).map_values(|c: ChangeModel| c.value),
        hunks_of(script).map_values(|h: HunkModel| h.after).flatten() == script.filter(
            |c: ChangeModel| c.tag == LineTag::Insert,
        ).map_values(|c: ChangeModel| c.value),
    decreases script.len(),
{
    let gone = |h: HunkModel| h.before;
    let come = |h: HunkModel| h.after;
    let deleted = |c: ChangeModel| c.tag == LineTag::Delete;
    let inserted = |c: ChangeModel| c.tag == LineTag::Insert;
    let value = |c: ChangeModel| c.value;
    let hunks = hunks_of(script);
    if script.len() == 0 {
        script.lemma_filter_len(deleted);
        script.lemma_filter_len(inserted);
        assert(hunks.map_values(gone) =~= Seq::empty());
        assert(hunks.map_values(come) =~= Seq::empty());
        assert(hunks.map_values(gone).flatten() =~= script.filter(deleted).map_values(value));
        assert(hunks.map_values(come).flatten() =~= script.filter(inserted).map_values(value));
    } else {
        let passed = script.drop_last();
        let change = script.last();
        let hunks0 = hunks_of(passed);
        hunks_hold_the_edited_lines(passed);
        lemma_hunks_stand(passed);
        assert(script =~= passed.push(change));
        passed.lemma_filter_push(change, deleted);
        passed.lemma_filter_push(change, inserted);
        if change.tag != LineTag::Equal {
            let fresh = hunk_at(old_side(passed).len() + 1int, new_side(passed).len() + 1int);
            let (closed, open) = if ends_in_edit(passed) {
                (hunks0.drop_last(), hunks0.last())
            } else {
                (hunks0, fresh)
            };
            let last = with_edit(open, change);
            assert(hunks == closed.push(last));
            assert(hunks.map_values(gone) =~= closed.map_values(gone).push(last.before));
            assert(hunks.map_values(come) =~= closed.map_values(come).push(last.after));
            closed.map_values(gone).lemma_flatten_push(last.before);
            closed.map_values(come).lemma_flatten_push(last.after);
            closed.map_values(gone).lemma_flatten_push(open.before);
            closed.map_values(come).lemma_flatten_push(open.after);
            if ends_in_edit(passed) {
                assert(hunks0.map_values(gone) =~= closed.map_values(gone).push(open.before));
                assert(hunks0.map_values(come) =~= closed.map_values(come).push(open.after));
            }
            assert(closed.map_values(gone).flatten() + open.before =~= hunks0.map_values(gone).flatten());
            assert(closed.map_values(come).flatten() + open.after =~= hunks0.map_values(come).flatten());
        }
        let line = change.value;
        let (gone0, come0) = (passed.filter(deleted), passed.filter(inserted));
        assert(gone0.push(change).map_values(value) =~= gone0.map_values(value).push(line));
        assert(come0.push(change).map_values(value) =~= come0.map_values(value).push(line));
        assert(hunks.map_values(gone).flatten() =~= script.filter(deleted).map_values(value));
        assert(hunks.map_values(come).flatten() =~= script.filter(inserted).map_values(value));
    }
}

/// Whether the changes from position `s` to position `e` of a script are a longest
/// run of edited lines, and the hunk is this run: it has the deleted and the
/// inserted lines of the run, and begins behind the lines of each side that come
/// before the run.
pub open spec fn is_run(hunk: HunkModel, script: Seq<ChangeModel>, s: int, e: int) -> bool {
    &&& 0 <= s < e <= script.len()
    &&& s > 0 ==> script[s - 1].tag == LineTag::Equal
    &&& e < script.len() ==> script[e].tag == LineTag::Equal
    &&& forall|i: int| s <= i < e ==> (#[trigger] script[i]).tag != LineTag::Equal
    &&& hunk.before == script.subrange(s, e).filter(
        |c: ChangeModel| c.tag == LineTag::Delete,
    ).map_values(|c: ChangeModel| c.value)
    &&& hunk.after == script.subrange(s, e).filter(
        |c: ChangeModel| c.tag == LineTag::Insert,
    ).map_values(|c: ChangeModel| c.value)
    &&& hunk.before_start == script.take(s).filter(
        |c: ChangeModel| c.tag != LineTag::Insert,
    ).len() + 1
    &&& hunk.after_start == script.take(s).filter(
        |c: ChangeModel| c.tag != LineTag::Delete,
    ).len() + 1
}

/// Whether `starts` and `ends` mark the longest runs of edited lines in a script,
/// in order and all of them, and the hunks are these runs.
pub open spec fn are_runs(
    hunks: Seq<HunkModel>,
    script: Seq<ChangeModel>,
    starts: Seq<int>,
    ends: Seq<int>,
) -> bool {
    &&& starts.len() == hunks.len()
    &&& ends.len() == hunks.len()
    &&& forall|m: int|
        0 <= m < hunks.len() ==> is_run(#[trigger] hunks[m], script, starts[m], ends[m])
    &&& forall|m: int, n: int|
        0 <= m < n < hunks.len() ==> (#[trigger] ends[m]) < (#[trigger] starts[n])
    &&& forall|i: int|
        0 <= i < script.len() && (#[trigger] script[i]).tag != LineTag::Equal ==> exists|m: int|
            0 <= m < hunks.len() && (#[trigger] starts[m]) <= i < ends[m]
}

/// The hunks of an edit script are its longest runs of edited lines.
pub proof fn hunks_are_runs_of_edits(script: Seq<ChangeModel>)
    ensures
        exists|starts: Seq<int>, ends: Seq<int>|
            are_runs(hunks_of(script), script, starts, ends),
{
    let (starts, ends) = lemma_runs(script);
    assert(are_runs(hunks_of(script), script, starts, ends));
}

proof fn lemma_run_stays(hunk: HunkModel, passed: Seq<ChangeModel>, change: ChangeModel, s: int, e: int)
    requires
        is_run(hunk, passed, s, e),
        e < passed.len() || change.tag == LineTag::Equal,
    ensures
        is_run(hunk, passed.push(change), s, e),
{
    let script = passed.push(change);
    assert(script.subrange(s, e) =~= passed.subrange(s, e));
    assert(script.take(s) =~= passed.take(s));
    assert forall|i: int| s <= i < e implies (#[trigger] script[i]).tag != LineTag::Equal by {
        assert(passed[i] == script[i]);
    }
}

proof fn lemma_run_grows(hunk: HunkModel, passed: Seq<ChangeModel>, change: ChangeModel, s: int)
    requires
        is_run(hunk, passed, s, passed.len() as int),
        change.tag != LineTag::Equal,
    ensures
        is_run(with_edit(hunk, change), passed.push(change), s, passed.len() + 1int),
{
    let script = passed.push(change);
    let n = passed.len() as int;
    let deleted = |c: ChangeModel| c.tag == LineTag::Delete;
    let inserted = |c: ChangeModel| c.tag == LineTag::Insert;
    let value = |c: ChangeModel| c.value;
    let run0 = passed.subrange(s, n);
    let run = script.subrange(s, n + 1);
    assert(run =~= run0.push(change));
    run0.lemma_filter_push(change, deleted);
    run0.lemma_filter_push(change, inserted);
    assert(run.filter(deleted).map_values(value) =~= with_edit(hunk, change).before);
    assert(run.filter(inserted).map_values(value) =~= with_edit(hunk, change).after);
    assert(script.take(s) =~= passed.take(s));
    assert forall|i: int| s <= i < n + 1 implies (#[trigger] script[i]).tag != LineTag::Equal by {
        if i < n {
            assert(passed[i] == script[i]);
        }
    }
}

proof fn lemma_run_begins(passed: Seq<ChangeModel>, change: ChangeModel)
    requires
        !ends_in_edit(passed),
        change.tag != LineTag::Equal,
    ensures
        is_run(
            with_edit(
                hunk_at(old_side(passed).len() + 1int, new_side(passed).len() + 1int),
                change,
            ),
            passed.push(change),
            passed.len() as int,
            passed.len() + 1int,
        ),
{
    let script = passed.push(change);
    let n = passed.len() as int;
    let deleted = |c: ChangeModel| c.tag == LineTag::Delete;
    let inserted = |c: ChangeModel| c.tag == LineTag::Insert;
    let value = |c: ChangeModel| c.value;
    let hunk = with_edit(
        hunk_at(old_side(passed).len() + 1int, new_side(passed).len() + 1int),
        change,
    );
    let none = Seq::<ChangeModel>::empty();
    let run = script.subrange(n, n + 1);
    assert(run =~= none.push(change));
    none.lemma_filter_len(deleted);
    none.lemma_filter_len(inserted);
    none.lemma_filter_push(change, deleted);
    none.lemma_filter_push(change, inserted);
    assert(run.filter(deleted).map_values(value) =~= hunk.before);
    assert(run.filter(inserted).map_values(value) =~= hunk.after);
    assert(script.take(n) =~= passed);
    if n > 0 {
        assert(script[n - 1] == passed.last());
    }
}

/// One more change adds to the last run, begins one, or ends it.
proof fn lemma_runs(script: Seq<ChangeModel>) -> (r: (Seq<int>, Seq<int>))
    ensures
        are_runs(hunks_of(script), script, r.0, r.1),
        ends_in_edit(script) ==> r.1.len() > 0 && r.1.last() == script.len(),
        !ends_in_edit(script) ==> forall|m: int| 0 <= m < r.1.len() ==> (#[trigger] r.1[m]) < script.len(),
    decreases script.len(),
{
    if script.len() == 0 {
        (Seq::empty(), Seq::empty())
    } else {
        let passed = script.drop_last();
        let change = script.last();
        let n = passed.len() as int;
        let hunks0 = hunks_of(passed);
        let hunks = hunks_of(script);
        let (starts0, ends0) = lemma_runs(passed);
        assert(script =~= passed.push(change));
        let (starts, ends) = if change.tag == LineTag::Equal {
            (starts0, ends0)
        } else if ends_in_edit(passed) {
            (starts0, ends0.drop_last().push(n + 1))
        } else {
            (starts0.push(n), ends0.push(n + 1))
        };
        assert(starts.len() == hunks.len() && ends.len() == hunks.len());
        assert forall|m: int| 0 <= m < hunks0.len() implies {
            &&& 0 <= #[trigger] starts0[m] < ends0[m] <= n
            &&& m < hunks0.len() - 1 ==> ends0[m] < n
        } by {
            assert(is_run(hunks0[m], passed, starts0[m], ends0[m]));
            if m < hunks0.len() - 1 {
                let k = hunks0.len() - 1;
                assert(is_run(hunks0[k], passed, starts0[k], ends0[k]));
                assert(ends0[m] < starts0[k]);
            }
        }
        assert forall|m: int, k: int| 0 <= m < k < hunks.len() implies (#[trigger] ends[m]) < (
        #[trigger] starts[k]) by {
            assert(ends[m] == ends0[m]);
            if k < hunks0.len() {
                assert(starts[k] == starts0[k]);
            }
        }
        assert forall|m: int| !ends_in_edit(script) && 0 <= m < ends.len() implies (#[trigger] ends[m])
            < script.len() by {
            assert(starts0[m] < ends0[m] <= n);
        }
        assert forall|m: int| 0 <= m < hunks.len() implies is_run(
            #[trigger] hunks[m],
            script,
            starts[m],
            ends[m],
        ) by {
            if m < hunks0.len() {
                assert(is_run(hunks0[m], passed, starts0[m], ends0[m]));
                assert(starts0[m] < ends0[m]);
                if change.tag != LineTag::Equal && ends_in_edit(passed) && m == hunks0.len() - 1 {
                    lemma_run_grows(hunks0[m], passed, change, starts0[m]);
                } else {
                    assert(hunks[m] == hunks0[m]);
                    lemma_run_stays(hunks0[m], passed, change, starts0[m], ends0[m]);
                }
            } else {
                lemma_run_begins(passed, change);
            }
        }
        assert forall|i: int|
            0 <= i < script.len() && (#[trigger] script[i]).tag != LineTag::Equal implies exists|m: int|
            0 <= m < hunks.len() && (#[trigger] starts[m]) <= i < ends[m] by {
            if i < n {
                assert(passed[i].tag != LineTag::Equal);
                let m = choose|m: int| 0 <= m < hunks0.len() && (#[trigger] starts0[m]) <= i < ends0[m];
                assert(starts[m] <= i < ends[m]);
            } else {
                let m = hunks.len() - 1;
                assert(is_run(hunks[m], script, starts[m], ends[m]));
                assert(starts[m] <= i < ends[m]);
            }
        }
        (starts, ends)
    }
}

/// Whether hunks lead from one list of lines to another, and back: there are none
/// exactly between equal lists, exchanging them in the old list gives the new one,
/// exchanging the turned ones in the new list gives the old one, and they stand
/// where they say, each apart from the next.
pub open spec fn lead_between(hunks: Seq<HunkModel>, before: Lines, after: Lines) -> bool {
    &&& hunks.len() == 0 <==> before == after
    &&& patched(before, hunks) == after
    &&& patched(after, turned(hunks)) == before
    &&& well_placed(hunks, before, after)
}

/// Gathers the edited lines of an edit script into hunks.
pub fn group_changes(changes: &Vec<LineChange>) -> (hunks: Vec<Hunk>)
    requires
        old_side(changes.deep_view()).len() < u32::MAX,
        new_side(changes.deep_view()).len() < u32::MAX,
    ensures
        hunks.deep_view() == hunks_of(changes.deep_view()),
{
    let ghost script = changes.deep_view();
    let mut hunks: Vec<Hunk> = Vec::new();
    let mut current: Option<Hunk> = None;
    let mut before_line: u32 = 1;
    let mut after_line: u32 = 1;
    let mut i: usize = 0;
    proof {
        assert(script.take(0) =~= Seq::empty());
        assert(hunks.deep_view() =~= Seq::empty());
    }
    while i < changes.len()
        invariant
            i <= changes@.len(),
            script == changes.deep_view(),
            old_side(script).len() < u32::MAX,
            new_side(script).len() < u32::MAX,
            before_line == old_side(script.take(i as int)).len() + 1,
            after_line == new_side(script.take(i as int)).len() + 1,
            current is Some <==> ends_in_edit(script.take(i as int)),
            hunks_of(script.take(i as int)) == match current {
                Some(hunk) => hunks.deep_view().push(hunk.deep_view()),
                None => hunks.deep_view(),
            },
        decreases changes@.len() - i,
    {
        let change = &changes[i];
        let ghost passed = script.take(i as int);
        let ghost now = script.take(i + 1);
        let ghost closed = hunks.deep_view();
        proof {
            assert(now.drop_last() =~= passed);
            assert(now.last() == change.deep_view());
            lemma_sides_grow(now);
            lemma_side_lengths(script, i + 1);
        }
        match change.tag {
            LineTag::Equal => {
                match current.take() {
                    Some(hunk) => {
                        hunks.push(hunk);
                        assert(hunks.deep_view() =~= closed.push(hunk.deep_view()));
                    },
                    None => {},
                }
                before_line = before_line + 1;
                after_line = after_line + 1;
            },
            LineTag::Delete => {
                let mut hunk = match current.take() {
                    Some(hunk) => hunk,
                    None => new_hunk(before_line, after_line),
                };
                let ghost open = hunk.deep_view();
                hunk.before.push(change.value.clone());
                proof {
                    assert(hunk.before.deep_view() =~= open.before.push(change.value@));
                    assert(hunk.deep_view() == with_edit(open, change.deep_view()));
                    assert(hunks_of(now) =~= closed.push(hunk.deep_view()));
                }
                current = Some(hunk);
                before_line = before_line + 1;
            },
            LineTag::Insert => {
                let mut hunk = match current.take() {
                    Some(hunk) => hunk,
                    None => new_hunk(before_line, after_line),
                };
                let ghost open = hunk.deep_view();
                hunk.after.push(change.value.clone());
                proof {
                    assert(hunk.after.deep_view() =~= open.after.push(change.value@));
                    assert(hunk.deep_view() == with_edit(open, change.deep_view()));
                    assert(hunks_of(now) =~= closed.push(hunk.deep_view()));
                }
                current = Some(hunk);
                after_line = after_line + 1;
            },
        }
        i += 1;
    }
    assert(script.take(i as int) =~= script);
    let ghost closed = hunks.deep_view();
    match current.take() {
        Some(hunk) => {
            hunks.push(hunk);
            assert(hunks.deep_view() =~= closed.push(hunk.deep_view()));
        },
        None => {},
    }
    hunks
}

fn new_hunk(before_start: u32, after_start: u32) -> (hunk: Hunk)
    ensures
        hunk.deep_view() == hunk_at(before_start as int, after_start as int),
{
    let hunk = Hunk { before: Vec::new(), after: Vec::new(), before_start, after_start };
    proof {
        assert(hunk.before.deep_view() =~= Seq::empty());
        assert(hunk.after.deep_view() =~= Seq::empty());
    }
    hunk
}

/// The sides of the first changes are no longer than those of the whole.
proof fn lemma_side_lengths(script: Seq<ChangeModel>, n: int)
    requires
        0 <= n <= script.len(),
    ensures
        old_side(script.take(n)).len() <= old_side(script).len(),
        new_side(script.take(n)).len() <= new_side(script).len(),
    decreases script.len() - n,
{
    if n < script.len() {
        lemma_side_lengths(script, n + 1);
        assert(script.take(n + 1).drop_last() =~= script.take(n));
        lemma_sides_grow(script.take(n + 1));
    } else {
        assert(script.take(n) =~= script);
    }
}

/// The edit script that `similar` finds between two lists of lines with its
/// default settings: Myers' algorithm, then compaction, deletions before
/// insertions, no time limit.
pub uninterp spec fn similar_changes(before: Seq<Seq<char>>, after: Seq<Seq<char>>) -> Seq<ChangeModel>;

/// Calls `similar::TextDiff::from_slices` on the two lists of lines and hands out
/// what `TextDiff::iter_all_changes` walks over, one item for each change.
///
/// Believed of it: the script depends on the two lists alone; its lines that are
/// not insertions are the old list, in order, and those that are not deletions
/// are the new one. It numbers the distinct lines of both lists in 32 bits, hence
/// the bound.
#[verifier::external_body]
fn line_changes(before: &[String], after: &[String]) -> (changes: Vec<LineChange>)
    requires
        before@.len() + after@.len() < u32::MAX,
    ensures
        changes.deep_view() == similar_changes(before.deep_view(), after.deep_view()),
        old_side(changes.deep_view()) == before.deep_view(),
        new_side(changes.deep_view()) == after.deep_view(),
{
    let old: Vec<&str> = before.iter().map(|line| line.as_str()).collect();
    let new: Vec<&str> = after.iter().map(|line| line.as_str()).collect();
    similar::TextDiff::from_slices(&old, &new)
        .iter_all_changes()
        .map(|change| LineChange {
            tag: match change.tag() {
                similar::ChangeTag::Equal => LineTag::Equal,
                similar::ChangeTag::Delete => LineTag::Delete,
                similar::ChangeTag::Insert => LineTag::Insert,
            },
            value: change.value().to_string(),
        })
        .collect()
}

/// Whether two lists hold the same lines.
fn same_lines(before: &[String], after: &[String]) -> (r: bool)
    ensures
        r == (before.deep_view() == after.deep_view()),
{
    if before.len() != after.len() {
        assert(before.deep_view().len() != after.deep_view().len());
        return false;
    }
    let mut i: usize = 0;
    while i < before.len()
        invariant
            i <= before@.len(),
            before@.len() == after@.len(),
            forall|j: int| 0 <= j < i ==> #[trigger] before.deep_view()[j] == after.deep_view()[j],
        decreases before@.len() - i,
    {
        if before[i] != after[i] {
            assert(before.deep_view()[i as int] != after.deep_view()[i as int]);
            return false;
        }
        i += 1;
    }
    assert(before.deep_view() =~= after.deep_view());
    true
}

/// The hunks between two lists of lines: none between equal lists, else those of
/// the edit script found.
pub open spec fn line_diff(before: Lines, after: Lines) -> Seq<HunkModel> {
    if before == after {
        Seq::empty()
    } else {
        hunks_of(similar_changes(before, after))
    }
}

/// The hunks between two lists that differ hold the edited lines of the script
/// found between them and no others, run by run; between equal lists there are
/// none.
pub proof fn line_diffs_hold_the_edited_lines(before: Lines, after: Lines)
    ensures
        before == after ==> line_diff(before, after).len() == 0,
        before != after ==> ({
            let script = similar_changes(before, after);
            let hunks = line_diff(before, after);
            &&& hunks.map_values(|h: HunkModel| h.before).flatten() == script.filter(
                |c: ChangeModel| c.tag == LineTag::Delete,
            ).map_values(|c: ChangeModel| c.value)
            &&& hunks.map_values(|h: HunkModel| h.after).flatten() == script.filter(
                |c: ChangeModel| c.tag == LineTag::Insert,
            ).map_values(|c: ChangeModel| c.value)
            &&& exists|starts: Seq<int>, ends: Seq<int>| are_runs(hunks, script, starts, ends)
        }),
{
    hunks_hold_the_edited_lines(similar_changes(before, after));
    hunks_are_runs_of_edits(similar_changes(before, after));
}

/// A hunk stands for its lines and its places, and a change for its tag and line.
pub proof fn hunks_stand_for_their_fields(hunk: Hunk, change: LineChange)
    ensures
        hunk.deep_view().before.len() == hunk.before@.len(),
        hunk.deep_view().after.len() == hunk.after@.len(),
        forall|i: int|
            0 <= i < hunk.before@.len() ==> #[trigger] hunk.deep_view().before[i] == hunk.before@[i]@,
        forall|i: int|
            0 <= i < hunk.after@.len() ==> #[trigger] hunk.deep_view().after[i] == hunk.after@[i]@,
        hunk.deep_view().before_start == hunk.before_start,
        hunk.deep_view().after_start == hunk.after_start,
        change.deep_view().tag == change.tag,
        change.deep_view().value == change.value@,
{
}

/// Computes the hunks in which two lists of lines differ.
pub fn compute_line_diff(before: &[String], after: &[String]) -> (hunks: Vec<Hunk>)
    requires
        before.deep_view() != after.deep_view() ==> before@.len() + after@.len() < u32::MAX,
    ensures
        hunks.deep_view() == line_diff(before.deep_view(), after.deep_view()),
        lead_between(hunks.deep_view(), before.deep_view(), after.deep_view()),
        // The lines in the hunks are the edited lines of the script, and each hunk
        // is a longest run of them.
        before.deep_view() != after.deep_view() ==> ({
            let script = similar_changes(before.deep_view(), after.deep_view());
            &&& hunks.deep_view().map_values(|h: HunkModel| h.before).flatten() == script.filter(
                |c: ChangeModel| c.tag == LineTag::Delete,
            ).map_values(|c: ChangeModel| c.value)
            &&& hunks.deep_view().map_values(|h: HunkModel| h.after).flatten() == script.filter(
                |c: ChangeModel| c.tag == LineTag::Insert,
            ).map_values(|c: ChangeModel| c.value)
            &&& exists|starts: Seq<int>, ends: Seq<int>|
                are_runs(hunks.deep_view(), script, starts, ends)
        }),
{
    if same_lines(before, after) {
        let hunks: Vec<Hunk> = Vec::new();
        proof {
            assert(hunks.deep_view() =~= Seq::empty());
            assert(turned(hunks.deep_view()) =~= Seq::empty());
        }
        return hunks;
    }
    let changes = line_changes(before, after);
    let hunks = group_changes(&changes);
    proof {
        hunks_hold_the_edited_lines(changes.deep_view());
        hunks_are_runs_of_edits(changes.deep_view());
        let script = changes.deep_view();
        hunks_lead_from_old_to_new(script);
        turned_hunks_lead_back(script);
        hunks_are_well_placed(script);
        if hunks@.len() == 0 {
            no_hunks_means_no_difference(script);
        }
    }
    hunks
}

} // verus!
