//! EditorCore: the facade the window shell drives. It owns the buffer,
//! one selection (an anchor where it started and a head where the
//! cursor is, both byte offsets), and the undo history.
use vstd::prelude::*;
use core::ops::Range;
use crate::editor::buffer::{
    blen, char_ix, edit_ok, is_cut, lemma_splice_undo, rope_byte_to_line, rope_line,
    rope_line_to_byte, splice, strip_nl, Buffer, Edit,
};
use crate::editor::movement::{next_grapheme, prev_grapheme, spec_next_grapheme, spec_prev_grapheme};
use crate::text::{all_whitespace, chars_of, is_ws, lemma_encode_push, push_char};
use crate::editor::buffer::rope_len_lines;

verus! {

#[derive(Debug, Clone, Copy, PartialEq, Eq, Structural)]
pub struct Selection {
    pub anchor: usize,
    pub head: usize,
}

impl Selection {
    pub open spec fn cursor_spec(offset: usize) -> Selection {
        Selection { anchor: offset, head: offset }
    }

    /// The selection's first byte.
    pub open spec fn lo(self) -> usize {
        if self.anchor <= self.head {
            self.anchor
        } else {
            self.head
        }
    }

    /// The byte after the selection.
    pub open spec fn hi(self) -> usize {
        if self.anchor <= self.head {
            self.head
        } else {
            self.anchor
        }
    }

    /// A bare cursor at `offset`.
    pub fn cursor(offset: usize) -> (r: Self)
        ensures
            r.anchor == offset,
            r.head == offset,
    {
        Self { anchor: offset, head: offset }
    }

    /// Whether nothing is selected.
    pub fn is_cursor(&self) -> (r: bool)
        ensures
            r == (self.anchor == self.head),
    {
        self.anchor == self.head
    }

    /// The selected bytes, whichever way the selection was made.
    pub fn range(&self) -> (r: Range<usize>)
        ensures
            r.start == if self.anchor <= self.head {
                self.anchor
            } else {
                self.head
            },
            r.end == if self.anchor <= self.head {
                self.head
            } else {
                self.anchor
            },
    {
        if self.anchor <= self.head {
            self.anchor..self.head
        } else {
            self.head..self.anchor
        }
    }
}

/// Edits of one kind closer together than this (in nanoseconds) undo
/// together.
pub const GROUP_WINDOW_NANOS: u64 = 700_000_000;

/// Whether an edit inserts text or only deletes.
#[derive(Debug, Clone, Copy, PartialEq, Eq, Structural)]
pub enum EditKind {
    Insert,
    Delete,
}

/// What one undo step takes back: the text and selection before the
/// step and after it.
pub struct Step {
    pub before: Seq<char>,
    pub after: Seq<char>,
    pub sel_before: Selection,
    pub sel_after: Selection,
}

/// The editor as its users see it.
pub struct CoreView {
    pub text: Seq<char>,
    pub selection: Selection,
    /// Steps that undo takes back, the most recent last.
    pub undo: Seq<Step>,
    /// Steps that redo puts back, the next one last.
    pub redo: Seq<Step>,
    /// Every recorded edit started on a character boundary and the
    /// history fits the text, so undo and redo restore texts exactly.
    pub sound: bool,
    /// The next edit starts a new step.
    pub broken: bool,
    pub last_kind: Option<EditKind>,
    pub last_at: Option<u64>,
}

struct UndoGroup {
    /// Edits in application order.
    edits: Vec<Edit>,
    selection_before: Selection,
    selection_after: Selection,
    /// The text before each edit.
    befores: Ghost<Seq<Seq<char>>>,
    /// The text after each edit.
    afters: Ghost<Seq<Seq<char>>>,
}

struct History {
    undo: Vec<UndoGroup>,
    redo: Vec<UndoGroup>,
    last_kind: Option<EditKind>,
    last_at: Option<u64>,
    broken: bool,
}

pub struct EditorCore {
    pub buffer: Buffer,
    pub selection: Selection,
    history: History,
}

/// Each edit of the group is what the buffer reported for it.
spec fn group_ok(g: UndoGroup) -> bool {
    &&& g.edits@.len() >= 1
    &&& g.befores@.len() == g.edits@.len()
    &&& g.afters@.len() == g.edits@.len()
    &&& forall|i: int|
        0 <= i < g.edits@.len() ==> edit_ok(g.befores@[i], #[trigger] g.edits@[i], g.afters@[i])
}

/// The group's edits followed one another and each started on a
/// character boundary.
spec fn group_sound(g: UndoGroup) -> bool {
    &&& forall|i: int|
        0 <= i < g.edits@.len() ==> is_cut(g.befores@[i], (#[trigger] g.edits@[i]).range.start as int)
    &&& forall|i: int| 0 <= i < g.edits@.len() - 1 ==> #[trigger] g.afters@[i] == g.befores@[i + 1]
}

spec fn step_of(g: UndoGroup) -> Step {
    Step {
        before: g.befores@[0],
        after: g.afters@.last(),
        sel_before: g.selection_before,
        sel_after: g.selection_after,
    }
}

/// The steps fit together and fit the text.
pub open spec fn chained(text: Seq<char>, undo: Seq<Step>, redo: Seq<Step>) -> bool {
    &&& undo.len() > 0 ==> undo.last().after == text
    &&& forall|j: int| 0 <= j < undo.len() - 1 ==> (#[trigger] undo[j]).after == undo[j + 1].before
    &&& redo.len() > 0 ==> redo.last().before == text
    &&& forall|j: int| 0 <= j < redo.len() - 1 ==> (#[trigger] redo[j]).before == redo[j + 1].after
}

spec fn all_ok(gs: Seq<UndoGroup>) -> bool {
    forall|i: int| 0 <= i < gs.len() ==> group_ok(#[trigger] gs[i])
}

spec fn all_sound(gs: Seq<UndoGroup>) -> bool {
    forall|i: int| 0 <= i < gs.len() ==> group_sound(#[trigger] gs[i])
}

spec fn steps(gs: Seq<UndoGroup>) -> Seq<Step> {
    gs.map_values(|g: UndoGroup| step_of(g))
}

impl View for EditorCore {
    type V = CoreView;

    closed spec fn view(&self) -> CoreView {
        CoreView {
            text: self.buffer@,
            selection: self.selection,
            undo: steps(self.history.undo@),
            redo: steps(self.history.redo@),
            sound: all_sound(self.history.undo@) && all_sound(self.history.redo@) && chained(
                self.buffer@,
                steps(self.history.undo@),
                steps(self.history.redo@),
            ),
            broken: self.history.broken,
            last_kind: self.history.last_kind,
            last_at: self.history.last_at,
        }
    }
}

/// The kind of an edit that puts `x` in place.
pub open spec fn kind_of(x: Seq<char>) -> EditKind {
    if x.len() == 0 {
        EditKind::Delete
    } else {
        EditKind::Insert
    }
}

/// An edit of `kind` at time `now` joins the last undo step.
pub open spec fn coalesces(a: CoreView, kind: EditKind, now: u64) -> bool {
    &&& !a.broken
    &&& a.last_kind == Some(kind)
    &&& a.last_at matches Some(at) && (if now >= at {
        now - at
    } else {
        0
    }) <= GROUP_WINDOW_NANOS
    &&& a.undo.len() > 0
}

/// `b` is `a` after replacing the bytes `[start, end)` with `x` at time
/// `now`, through the history.
pub open spec fn edited(a: CoreView, b: CoreView, start: int, end: int, x: Seq<char>, now: u64) -> bool {
    let kind = kind_of(x);
    let cursor = Selection { anchor: (start + blen(x)) as usize, head: (start + blen(x)) as usize };
    &&& b.text == splice(a.text, start, end, x)
    &&& b.selection == cursor
    &&& b.redo.len() == 0
    &&& b.last_kind == Some(kind)
    &&& b.last_at == Some(now)
    &&& !b.broken
    &&& if coalesces(a, kind, now) {
        b.undo == a.undo.drop_last().push(
            Step {
                before: a.undo.last().before,
                after: b.text,
                sel_before: a.undo.last().sel_before,
                sel_after: cursor,
            },
        )
    } else {
        b.undo == a.undo.push(
            Step { before: a.text, after: b.text, sel_before: a.selection, sel_after: cursor },
        )
    }
    &&& a.sound && is_cut(a.text, start) ==> b.sound
}

/// `b` is `a` after an undo that took a step back.
pub open spec fn undone(a: CoreView, b: CoreView) -> bool {
    let g = a.undo.last();
    &&& a.undo.len() > 0
    &&& b.undo == a.undo.drop_last()
    &&& b.redo == a.redo.push(g)
    &&& b.selection == g.sel_before
    &&& b.broken
    &&& b.last_kind == a.last_kind
    &&& b.last_at == a.last_at
    &&& a.sound ==> a.text == g.after && b.text == g.before && b.sound
}

/// `b` is `a` after a redo that put a step back.
pub open spec fn redone(a: CoreView, b: CoreView) -> bool {
    let g = a.redo.last();
    &&& a.redo.len() > 0
    &&& b.redo == a.redo.drop_last()
    &&& b.undo == a.undo.push(g)
    &&& b.selection == g.sel_after
    &&& b.broken
    &&& b.last_kind == a.last_kind
    &&& b.last_at == a.last_at
    &&& a.sound ==> a.text == g.before && b.text == g.after && b.sound
}

/// `b` is `a` with only the selection changed.
pub open spec fn reselected(a: CoreView, b: CoreView, sel: Selection) -> bool {
    b == CoreView { selection: sel, ..a }
}

proof fn lemma_steps_push(gs: Seq<UndoGroup>, g: UndoGroup)
    ensures
        steps(gs.push(g)) == steps(gs).push(step_of(g)),
{
    assert(steps(gs.push(g)) =~= steps(gs).push(step_of(g)));
}

proof fn lemma_steps_drop_last(gs: Seq<UndoGroup>)
    requires
        gs.len() > 0,
    ensures
        steps(gs.drop_last()) == steps(gs).drop_last(),
        steps(gs).last() == step_of(gs.last()),
{
    assert(steps(gs.drop_last()) =~= steps(gs).drop_last());
}

/// The number of spaces and tabs a line starts with.
pub open spec fn ws_run(s: Seq<char>) -> nat
    decreases s.len(),
{
    if s.len() > 0 && (s[0] == ' ' || s[0] == '\t') {
        1 + ws_run(s.drop_first())
    } else {
        0
    }
}

/// What a newline typed at byte `head` inserts: the newline and the
/// leading whitespace of the cursor's line, as far as it reaches left
/// of the cursor.
pub open spec fn indent_text(t: Seq<char>, head: int) -> Seq<char> {
    let ix = rope_byte_to_line(t, head) as int;
    let start = rope_line_to_byte(t, ix) as int;
    let line = strip_nl(rope_line(t, ix));
    let upto = if head >= start {
        head - start
    } else {
        0
    };
    let upto = if upto <= blen(line) {
        upto
    } else {
        blen(line) as int
    };
    let n = if ws_run(line) <= upto {
        ws_run(line) as int
    } else {
        upto
    };
    seq!['\n'] + line.take(n)
}

proof fn lemma_ws_run(s: Seq<char>, n: int)
    requires
        0 <= n <= s.len(),
        forall|k: int| 0 <= k < n ==> s[k] == ' ' || s[k] == '\t',
        n == s.len() || !(s[n] == ' ' || s[n] == '\t'),
    ensures
        ws_run(s) == n,
    decreases n,
{
    if n > 0 {
        lemma_ws_run(s.drop_first(), n - 1);
    }
}

proof fn lemma_plain_blen(s: Seq<char>)
    requires
        forall|k: int| 0 <= k < s.len() ==> s[k] == ' ' || s[k] == '\t' || s[k] == '\n',
    ensures
        blen(s) == s.len(),
    decreases s.len(),
{
    if s.len() > 0 {
        lemma_plain_blen(s.drop_last());
        lemma_encode_push(s.drop_last(), s.last());
        assert(s.drop_last().push(s.last()) =~= s);
    }
}

/// Undoing right after an edit that began a new undo step restores the
/// text, the selection and the undo history from before the edit.
pub proof fn lemma_undo_reverts_edit(
    a: CoreView,
    b: CoreView,
    c: CoreView,
    start: int,
    end: int,
    x: Seq<char>,
    now: u64,
)
    requires
        a.sound,
        is_cut(a.text, start),
        edited(a, b, start, end, x, now),
        !coalesces(a, kind_of(x), now),
        undone(b, c),
    ensures
        c.text == a.text,
        c.selection == a.selection,
        c.undo == a.undo,
{
    assert(b.undo.drop_last() =~= a.undo);
}

/// Undoing right after an edit that joined the last undo step restores
/// the text and selection from before that whole step.
pub proof fn lemma_undo_reverts_joined_edit(
    a: CoreView,
    b: CoreView,
    c: CoreView,
    start: int,
    end: int,
    x: Seq<char>,
    now: u64,
)
    requires
        a.sound,
        is_cut(a.text, start),
        edited(a, b, start, end, x, now),
        coalesces(a, kind_of(x), now),
        undone(b, c),
    ensures
        c.text == a.undo.last().before,
        c.selection == a.undo.last().sel_before,
        c.undo == a.undo.drop_last(),
{
    assert(b.undo.drop_last() =~= a.undo.drop_last());
}

/// Redo right after undo puts back the text and both histories as they
/// were, with the selection the step ended with.
pub proof fn lemma_redo_after_undo(a: CoreView, b: CoreView, c: CoreView)
    requires
        a.sound,
        undone(a, b),
        redone(b, c),
    ensures
        c.text == a.text,
        c.selection == a.undo.last().sel_after,
        c.undo == a.undo,
        c.redo == a.redo,
        c.sound,
{
    assert(b.redo.last() == a.undo.last());
    assert(b.redo.drop_last() =~= a.redo);
    assert(b.undo.push(a.undo.last()) =~= a.undo);
}

/// Undo right after redo puts back the text and both histories as they
/// were, with the selection the step began with.
pub proof fn lemma_undo_after_redo(a: CoreView, b: CoreView, c: CoreView)
    requires
        a.sound,
        redone(a, b),
        undone(b, c),
    ensures
        c.text == a.text,
        c.selection == a.redo.last().sel_before,
        c.undo == a.undo,
        c.redo == a.redo,
        c.sound,
{
    assert(b.undo.last() == a.redo.last());
    assert(b.undo.drop_last() =~= a.undo);
    assert(b.redo.push(a.redo.last()) =~= a.redo);
}

impl EditorCore {
    /// The history's groups are what the buffer reported.
    pub closed spec fn wf(&self) -> bool {
        all_ok(self.history.undo@) && all_ok(self.history.redo@)
    }

    pub fn new(text: &str) -> (r: Self)
        ensures
            r.wf(),
            r@.text == text@,
            r@.selection == Selection::cursor_spec(0),
            r@.undo.len() == 0,
            r@.redo.len() == 0,
            r@.sound,
            !r@.broken,
            r@.last_kind.is_none(),
            r@.last_at.is_none(),
    {
        let r = Self {
            buffer: Buffer::from_text(text),
            selection: Selection::cursor(0),
            history: History {
                undo: Vec::new(),
                redo: Vec::new(),
                last_kind: None,
                last_at: None,
                broken: false,
            },
        };
        proof {
            assert(steps(r.history.undo@) =~= Seq::<Step>::empty());
            assert(steps(r.history.redo@) =~= Seq::<Step>::empty());
        }
        r
    }

    fn apply(&mut self, range: Range<usize>, text: &str, now: u64)
        requires
            old(self).wf(),
            range.start <= range.end <= blen(old(self)@.text),
            range.start + blen(text@) <= usize::MAX,
        ensures
            final(self).wf(),
            edited(old(self)@, final(self)@, range.start as int, range.end as int, text@, now),
    {
        let ghost a = self@;
        let ghost t0 = self.buffer@;
        let ghost gs = self.history.undo@;
        let ghost rs = self.history.redo@;
        let selection_before = self.selection;
        let kind = if text.is_empty() {
            EditKind::Delete
        } else {
            EditKind::Insert
        };
        let edit = self.buffer.replace(range.start..range.end, text);
        let ghost t1 = self.buffer@;
        self.selection = Selection::cursor(range.start + text.len());
        let coalesce = if self.history.broken || self.history.undo.len() == 0 {
            false
        } else {
            match (self.history.last_kind, self.history.last_at) {
                (Some(k), Some(at)) => {
                    let gap = if now >= at {
                        now - at
                    } else {
                        0
                    };
                    k == kind && gap <= GROUP_WINDOW_NANOS
                },
                _ => false,
            }
        };
        assert(coalesce == coalesces(a, kind, now));
        if coalesce {
            let mut group = self.history.undo.pop().unwrap();
            let ghost g0 = group;
            proof {
                lemma_steps_drop_last(gs);
            }
            group.edits.push(edit);
            group.selection_after = self.selection;
            group.befores = Ghost(group.befores@.push(t0));
            group.afters = Ghost(group.afters@.push(t1));
            proof {
                assert(group_ok(group)) by {
                    assert forall|i: int| 0 <= i < group.edits@.len() implies edit_ok(
                        group.befores@[i],
                        #[trigger] group.edits@[i],
                        group.afters@[i],
                    ) by {
                        if i < g0.edits@.len() {
                            assert(group.edits@[i] == g0.edits@[i]);
                        }
                    }
                }
                if a.sound && is_cut(t0, range.start as int) {
                    assert(group_sound(g0));
                    assert(steps(gs)[gs.len() - 1] == step_of(g0));
                    assert(group_sound(group)) by {
                        assert forall|i: int| 0 <= i < group.edits@.len() implies is_cut(
                            group.befores@[i],
                            (#[trigger] group.edits@[i]).range.start as int,
                        ) by {
                            if i < g0.edits@.len() {
                                assert(group.edits@[i] == g0.edits@[i]);
                            }
                        }
                        assert forall|i: int| 0 <= i < group.edits@.len() - 1 implies #[trigger] group.afters@[i]
                            == group.befores@[i + 1] by {
                            if i < g0.edits@.len() - 1 {
                                assert(g0.afters@[i] == g0.befores@[i + 1]);
                            }
                        }
                    }
                }
            }
            self.history.undo.push(group);
            proof {
                lemma_steps_push(gs.drop_last(), group);
            }
        } else {
            let ghost befores = seq![t0];
            let ghost afters = seq![t1];
            let mut edits: Vec<Edit> = Vec::new();
            edits.push(edit);
            let group = UndoGroup {
                edits,
                selection_before,
                selection_after: self.selection,
                befores: Ghost(befores),
                afters: Ghost(afters),
            };
            proof {
                assert(group.edits@[0] == edit);
            }
            self.history.undo.push(group);
            proof {
                lemma_steps_push(gs, group);
            }
        }
        self.history.redo = Vec::new();
        self.history.last_kind = Some(kind);
        self.history.last_at = Some(now);
        self.history.broken = false;
        proof {
            let nu = self.history.undo@;
            assert(all_ok(nu)) by {
                assert forall|i: int| 0 <= i < nu.len() implies group_ok(#[trigger] nu[i]) by {
                    if i < nu.len() - 1 {
                        assert(nu[i] == gs[i]);
                    }
                }
            }
            assert(steps(self.history.redo@) =~= Seq::<Step>::empty());
            if a.sound && is_cut(t0, range.start as int) {
                assert(all_sound(nu)) by {
                    assert forall|i: int| 0 <= i < nu.len() implies group_sound(#[trigger] nu[i]) by {
                        if i < nu.len() - 1 {
                            assert(nu[i] == gs[i]);
                        }
                    }
                }
                let su = steps(nu);
                let sa = steps(gs);
                assert forall|j: int| 0 <= j < su.len() - 1 implies (#[trigger] su[j]).after
                    == su[j + 1].before by {
                    if j < su.len() - 2 || !coalesce {
                        assert(su[j] == sa[j]);
                    }
                    if j < su.len() - 2 {
                        assert(su[j + 1] == sa[j + 1]);
                    }
                }
            }
        }
    }

    /// Takes back the most recent undo step, if there is one.
    pub fn undo(&mut self) -> (r: bool)
        requires
            old(self).wf(),
        ensures
            final(self).wf(),
            r == (old(self)@.undo.len() > 0),
            r ==> undone(old(self)@, final(self)@),
            !r ==> final(self)@ == old(self)@,
    {
        let ghost a = self@;
        let ghost gs = self.history.undo@;
        let ghost rs = self.history.redo@;
        if self.history.undo.len() == 0 {
            return false;
        }
        let group = self.history.undo.pop().unwrap();
        proof {
            lemma_steps_drop_last(gs);
            assert(group == gs[gs.len() - 1]);
            assert(group_ok(group));
            if a.sound {
                assert(group_sound(group));
            }
        }
        let n = group.edits.len();
        let mut i = n;
        while i > 0
            invariant
                0 <= i <= n == group.edits@.len(),
                group_ok(group),
                a.sound ==> group_sound(group),
                a.sound && i == n ==> self.buffer@ == group.afters@[n - 1],
                a.sound && i < n ==> self.buffer@ == group.befores@[i as int],
                self.history.undo@ == gs.drop_last(),
                self.history.redo@ == rs,
                self.history.broken == a.broken,
                self.history.last_kind == a.last_kind,
                self.history.last_at == a.last_at,
                self.selection == a.selection,
            decreases i,
        {
            i -= 1;
            let edit = &group.edits[i];
            let start = edit.range.start;
            let len = edit.new.as_str().len();
            let total = self.buffer.len_bytes();
            proof {
                let t = group.befores@[i as int];
                assert(edit_ok(t, group.edits@[i as int], group.afters@[i as int]));
                if a.sound {
                    assert(is_cut(t, start as int));
                    if i + 1 < n {
                        assert(group.afters@[i as int] == group.befores@[i + 1]);
                    }
                    lemma_splice_undo(t, start as int, edit.range.end as int, edit.new@);
                }
            }
            if len <= total && start <= total - len {
                self.buffer.replace(start..start + len, edit.old.as_str());
            }
        }
        self.selection = group.selection_before;
        self.history.redo.push(group);
        self.history.broken = true;
        proof {
            lemma_steps_push(rs, group);
            let nr = self.history.redo@;
            assert(all_ok(nr)) by {
                assert forall|k: int| 0 <= k < nr.len() implies group_ok(#[trigger] nr[k]) by {
                    if k < nr.len() - 1 {
                        assert(nr[k] == rs[k]);
                    }
                }
            }
            assert(all_ok(self.history.undo@)) by {
                assert forall|k: int| 0 <= k < self.history.undo@.len() implies group_ok(
                    #[trigger] self.history.undo@[k],
                ) by {
                    assert(self.history.undo@[k] == gs[k]);
                }
            }
            if a.sound {
                assert(all_sound(nr)) by {
                    assert forall|k: int| 0 <= k < nr.len() implies group_sound(#[trigger] nr[k]) by {
                        if k < nr.len() - 1 {
                            assert(nr[k] == rs[k]);
                        }
                    }
                }
                assert(all_sound(self.history.undo@)) by {
                    assert forall|k: int| 0 <= k < self.history.undo@.len() implies group_sound(
                        #[trigger] self.history.undo@[k],
                    ) by {
                        assert(self.history.undo@[k] == gs[k]);
                    }
                }
                let su = steps(self.history.undo@);
                let sa = steps(gs);
                let sr = steps(nr);
                let sb = steps(rs);
                if su.len() > 0 {
                    assert(su.last() == sa[sa.len() - 2]);
                    assert(sa[sa.len() - 2].after == sa[sa.len() - 1].before);
                }
                assert forall|j: int| 0 <= j < su.len() - 1 implies (#[trigger] su[j]).after
                    == su[j + 1].before by {
                    assert(su[j] == sa[j]);
                    assert(su[j + 1] == sa[j + 1]);
                }
                assert forall|j: int| 0 <= j < sr.len() - 1 implies (#[trigger] sr[j]).before
                    == sr[j + 1].after by {
                    assert(sr[j] == sb[j]);
                    if j < sr.len() - 2 {
                        assert(sr[j + 1] == sb[j + 1]);
                    }
                }
            }
        }
        true
    }

    /// Puts back the most recently undone step, if there is one.
    pub fn redo(&mut self) -> (r: bool)
        requires
            old(self).wf(),
        ensures
            final(self).wf(),
            r == (old(self)@.redo.len() > 0),
            r ==> redone(old(self)@, final(self)@),
            !r ==> final(self)@ == old(self)@,
    {
        let ghost a = self@;
        let ghost gs = self.history.undo@;
        let ghost rs = self.history.redo@;
        if self.history.redo.len() == 0 {
            return false;
        }
        let group = self.history.redo.pop().unwrap();
        proof {
            lemma_steps_drop_last(rs);
            assert(group == rs[rs.len() - 1]);
            assert(group_ok(group));
            if a.sound {
                assert(group_sound(group));
            }
        }
        let n = group.edits.len();
        let mut i: usize = 0;
        while i < n
            invariant
                0 <= i <= n == group.edits@.len(),
                group_ok(group),
                a.sound ==> group_sound(group),
                a.sound && i == 0 ==> self.buffer@ == group.befores@[0],
                a.sound && i > 0 ==> self.buffer@ == group.afters@[i - 1],
                self.history.undo@ == gs,
                self.history.redo@ == rs.drop_last(),
                self.history.broken == a.broken,
                self.history.last_kind == a.last_kind,
                self.history.last_at == a.last_at,
                self.selection == a.selection,
            decreases n - i,
        {
            let edit = &group.edits[i];
            let total = self.buffer.len_bytes();
            proof {
                assert(edit_ok(group.befores@[i as int], group.edits@[i as int], group.afters@[i as int]));
                if a.sound && i > 0 {
                    assert(group.afters@[i - 1] == group.befores@[i as int]);
                }
            }
            if edit.range.start <= edit.range.end && edit.range.end <= total {
                self.buffer.replace(edit.range.start..edit.range.end, edit.new.as_str());
            }
            i += 1;
        }
        self.selection = group.selection_after;
        self.history.undo.push(group);
        self.history.broken = true;
        proof {
            lemma_steps_push(gs, group);
            let nu = self.history.undo@;
            assert(all_ok(nu)) by {
                assert forall|k: int| 0 <= k < nu.len() implies group_ok(#[trigger] nu[k]) by {
                    if k < nu.len() - 1 {
                        assert(nu[k] == gs[k]);
                    }
                }
            }
            assert(all_ok(self.history.redo@)) by {
                assert forall|k: int| 0 <= k < self.history.redo@.len() implies group_ok(
                    #[trigger] self.history.redo@[k],
                ) by {
                    assert(self.history.redo@[k] == rs[k]);
                }
            }
            if a.sound {
                assert(all_sound(nu)) by {
                    assert forall|k: int| 0 <= k < nu.len() implies group_sound(#[trigger] nu[k]) by {
                        if k < nu.len() - 1 {
                            assert(nu[k] == gs[k]);
                        }
                    }
                }
                assert(all_sound(self.history.redo@)) by {
                    assert forall|k: int| 0 <= k < self.history.redo@.len() implies group_sound(
                        #[trigger] self.history.redo@[k],
                    ) by {
                        assert(self.history.redo@[k] == rs[k]);
                    }
                }
                let su = steps(nu);
                let sa = steps(gs);
                let sr = steps(self.history.redo@);
                let sb = steps(rs);
                if sr.len() > 0 {
                    assert(sr.last() == sb[sb.len() - 2]);
                    assert(sb[sb.len() - 2].before == sb[sb.len() - 1].after);
                }
                assert forall|j: int| 0 <= j < sr.len() - 1 implies (#[trigger] sr[j]).before
                    == sr[j + 1].after by {
                    assert(sr[j] == sb[j]);
                    assert(sr[j + 1] == sb[j + 1]);
                }
                assert forall|j: int| 0 <= j < su.len() - 1 implies (#[trigger] su[j]).after
                    == su[j + 1].before by {
                    assert(su[j] == sa[j]);
                    if j < su.len() - 2 {
                        assert(su[j + 1] == sa[j + 1]);
                    }
                }
            }
        }
        true
    }

    /// Puts a bare cursor at `offset`, clamped to the text.
    pub fn set_cursor(&mut self, offset: usize)
        requires
            old(self).wf(),
        ensures
            final(self).wf(),
            reselected(
                old(self)@,
                final(self)@,
                Selection::cursor_spec(
                    if offset <= blen(old(self)@.text) {
                        offset
                    } else {
                        blen(old(self)@.text) as usize
                    },
                ),
            ),
    {
        let len = self.buffer.len_bytes();
        let offset = if offset <= len {
            offset
        } else {
            len
        };
        self.selection = Selection::cursor(offset);
    }

    /// Moves the selection's head to `offset`, clamped to the text.
    pub fn select_to(&mut self, offset: usize)
        requires
            old(self).wf(),
        ensures
            final(self).wf(),
            reselected(
                old(self)@,
                final(self)@,
                Selection {
                    anchor: old(self)@.selection.anchor,
                    head: if offset <= blen(old(self)@.text) {
                        offset
                    } else {
                        blen(old(self)@.text) as usize
                    },
                },
            ),
    {
        let len = self.buffer.len_bytes();
        self.selection.head = if offset <= len {
            offset
        } else {
            len
        };
    }

    /// Selects the whole text.
    pub fn select_all(&mut self)
        requires
            old(self).wf(),
        ensures
            final(self).wf(),
            reselected(
                old(self)@,
                final(self)@,
                Selection { anchor: 0, head: blen(old(self)@.text) as usize },
            ),
    {
        self.selection = Selection { anchor: 0, head: self.buffer.len_bytes() };
    }

    /// The selected text.
    pub fn selected_text(&self) -> (r: String)
        requires
            self@.selection.hi() <= blen(self@.text),
        ensures
            r@ == self@.text.subrange(
                char_ix(self@.text, self@.selection.lo() as int) as int,
                char_ix(self@.text, self@.selection.hi() as int) as int,
            ),
    {
        self.buffer.slice(self.selection.range())
    }

    /// Types `text` over the selection.
    pub fn insert(&mut self, text: &str, now: u64)
        requires
            old(self).wf(),
            old(self)@.selection.hi() <= blen(old(self)@.text),
            old(self)@.selection.lo() + blen(text@) <= usize::MAX,
        ensures
            final(self).wf(),
            edited(
                old(self)@,
                final(self)@,
                old(self)@.selection.lo() as int,
                old(self)@.selection.hi() as int,
                text@,
                now,
            ),
    {
        let range = self.selection.range();
        self.apply(range, text, now);
    }

    /// Applies an arbitrary replacement through the normal history path.
    /// The cursor lands at the end of the inserted text.
    pub fn replace_range(&mut self, range: Range<usize>, text: &str, now: u64)
        requires
            old(self).wf(),
            range.start <= range.end <= blen(old(self)@.text),
            range.start + blen(text@) <= usize::MAX,
        ensures
            final(self).wf(),
            edited(old(self)@, final(self)@, range.start as int, range.end as int, text@, now),
    {
        self.apply(range, text, now);
    }

    /// A newline that copies the current line's leading whitespace (only
    /// the part left of the cursor).
    pub fn insert_newline_auto_indent(&mut self, now: u64)
        requires
            old(self).wf(),
            old(self)@.selection.hi() <= blen(old(self)@.text),
            old(self)@.selection.lo() + blen(old(self)@.text) < usize::MAX,
        ensures
            final(self).wf(),
            edited(
                old(self)@,
                final(self)@,
                old(self)@.selection.lo() as int,
                old(self)@.selection.hi() as int,
                indent_text(old(self)@.text, old(self)@.selection.lo() as int),
                now,
            ),
    {
        let head = self.selection.range().start;
        let line_ix = self.buffer.line_of_byte(head);
        let line_start = self.buffer.line_range(line_ix).start;
        let line = self.buffer.line_text(line_ix);
        let upto = if head >= line_start {
            head - line_start
        } else {
            0
        };
        let llen = line.as_str().len();
        let upto = if upto <= llen {
            upto
        } else {
            llen
        };
        let cs = chars_of(line.as_str());
        let mut n: usize = 0;
        while n < cs.len() && (cs[n] == ' ' || cs[n] == '\t')
            invariant
                n <= cs@.len(),
                forall|k: int| 0 <= k < n ==> cs@[k] == ' ' || cs@[k] == '\t',
            decreases cs@.len() - n,
        {
            n += 1;
        }
        proof {
            lemma_ws_run(cs@, n as int);
        }
        let ws = if n <= upto {
            n
        } else {
            upto
        };
        let mut text = String::new();
        push_char(&mut text, '\n');
        let mut k: usize = 0;
        while k < ws
            invariant
                k <= ws <= n <= cs@.len(),
                forall|j: int| 0 <= j < n ==> cs@[j] == ' ' || cs@[j] == '\t',
                text@ == seq!['\n'] + cs@.take(k as int),
            decreases ws - k,
        {
            push_char(&mut text, cs[k]);
            proof {
                assert(cs@.take(k + 1) =~= cs@.take(k as int).push(cs@[k as int]));
            }
            k += 1;
        }
        proof {
            lemma_plain_blen(text@);
        }
        self.insert(text.as_str(), now);
    }

    /// Deletes the grapheme before the cursor, or the selection.
    pub fn backspace(&mut self, now: u64)
        requires
            old(self).wf(),
            old(self)@.selection.hi() <= blen(old(self)@.text),
            old(self)@.selection.anchor == old(self)@.selection.head ==> is_cut(
                old(self)@.text,
                old(self)@.selection.head as int,
            ),
        ensures
            final(self).wf(),
            ({
                let sel = old(self)@.selection;
                let (s, e) = if sel.anchor == sel.head {
                    (spec_prev_grapheme(old(self)@.text, sel.head as int), sel.head as int)
                } else {
                    (sel.lo() as int, sel.hi() as int)
                };
                if s < e {
                    edited(old(self)@, final(self)@, s, e, Seq::<char>::empty(), now)
                } else {
                    final(self)@ == old(self)@
                }
            }),
    {
        let range = if self.selection.is_cursor() {
            prev_grapheme(&self.buffer, self.selection.head)..self.selection.head
        } else {
            self.selection.range()
        };
        if range.start < range.end {
            proof {
                assert(""@ =~= Seq::<char>::empty()) by {
                    reveal_strlit("");
                }
            }
            self.apply(range, "", now);
        }
    }

    /// Deletes the grapheme after the cursor, or the selection.
    pub fn delete_forward(&mut self, now: u64)
        requires
            old(self).wf(),
            old(self)@.selection.hi() <= blen(old(self)@.text),
            old(self)@.selection.anchor == old(self)@.selection.head ==> is_cut(
                old(self)@.text,
                old(self)@.selection.head as int,
            ),
        ensures
            final(self).wf(),
            ({
                let sel = old(self)@.selection;
                let (s, e) = if sel.anchor == sel.head {
                    (sel.head as int, spec_next_grapheme(old(self)@.text, sel.head as int))
                } else {
                    (sel.lo() as int, sel.hi() as int)
                };
                if s < e {
                    edited(old(self)@, final(self)@, s, e, Seq::<char>::empty(), now)
                } else {
                    final(self)@ == old(self)@
                }
            }),
    {
        let range = if self.selection.is_cursor() {
            self.selection.head..next_grapheme(&self.buffer, self.selection.head)
        } else {
            self.selection.range()
        };
        if range.start < range.end {
            proof {
                assert(""@ =~= Seq::<char>::empty()) by {
                    reveal_strlit("");
                }
            }
            self.apply(range, "", now);
        }
    }

    /// The next edit starts a new undo step.
    pub fn break_undo_group(&mut self)
        requires
            old(self).wf(),
        ensures
            final(self).wf(),
            final(self)@ == (CoreView { broken: true, ..old(self)@ }),
    {
        self.history.broken = true;
    }
}

/// Line `ix` of `t` holds nothing but whitespace.
pub open spec fn blank_line(t: Seq<char>, ix: int) -> bool {
    forall|k: int| 0 <= k < strip_nl(rope_line(t, ix)).len() ==> is_ws(#[trigger] strip_nl(rope_line(t, ix))[k])
}

/// The first line of the run of non-blank lines that reaches down to
/// line `ix`.
pub open spec fn run_start(t: Seq<char>, ix: int) -> int
    decreases ix,
{
    if ix > 0 && !blank_line(t, ix - 1) {
        run_start(t, ix - 1)
    } else {
        ix
    }
}

/// The last line, up to `last`, of the run of non-blank lines that
/// starts at line `ix`.
pub open spec fn run_end(t: Seq<char>, ix: int, last: int) -> int
    decreases last - ix,
{
    if ix < last && !blank_line(t, ix + 1) {
        run_end(t, ix + 1, last)
    } else {
        ix
    }
}

impl EditorCore {
    /// The bytes of the paragraph around the cursor: the lines from the
    /// nearest blank line above to the nearest blank line below (newline
    /// of the last excluded), where a list renumbers.
    pub fn list_run_around_cursor(&self) -> (r: Range<usize>)
        ensures
            ({
                let t = self@.text;
                let cur = rope_byte_to_line(t, if self@.selection.head <= blen(t) {
                    self@.selection.head as int
                } else {
                    blen(t) as int
                }) as int;
                let first = run_start(t, cur);
                let last = run_end(t, cur, rope_len_lines(t) - 1);
                &&& r.start == rope_line_to_byte(t, first)
                &&& r.end == rope_line_to_byte(t, last) + blen(strip_nl(rope_line(t, last)))
            }),
    {
        let ghost t = self.buffer@;
        let cur = self.buffer.line_of_byte(self.selection.head);
        let mut start_line = cur;
        while start_line > 0 && !all_whitespace(self.buffer.line_text(start_line - 1).as_str())
            invariant
                t == self.buffer@,
                start_line <= cur < rope_len_lines(t),
                run_start(t, cur as int) == run_start(t, start_line as int),
            decreases start_line,
        {
            start_line -= 1;
        }
        let count = self.buffer.line_count();
        let last_line = count - 1;
        let mut end_line = cur;
        while end_line < last_line && !all_whitespace(self.buffer.line_text(end_line + 1).as_str())
            invariant
                t == self.buffer@,
                count == rope_len_lines(t),
                last_line == count - 1,
                cur <= end_line <= last_line,
                run_end(t, cur as int, last_line as int) == run_end(t, end_line as int, last_line as int),
            decreases last_line - end_line,
        {
            end_line += 1;
        }
        self.buffer.line_range(start_line).start..self.buffer.line_range(end_line).end
    }
}

/// `n` spaces.
pub open spec fn spaces(n: int) -> Seq<char> {
    Seq::new(n as nat, |i: int| ' ')
}

/// An offset moved by `delta`, never before `floor`.
pub open spec fn shifted(o: int, floor: int, delta: int) -> usize {
    if o + delta < floor {
        floor as usize
    } else {
        (o + delta) as usize
    }
}

fn spaces_string(n: usize) -> (r: String)
    ensures
        r@ == spaces(n as int),
{
    let mut out = String::new();
    let mut i: usize = 0;
    while i < n
        invariant
            i <= n,
            out@ == spaces(i as int),
        decreases n - i,
    {
        push_char(&mut out, ' ');
        i += 1;
        assert(out@ =~= spaces(i as int));
    }
    out
}

fn shift_offset(o: usize, floor: usize, delta: isize) -> (r: usize)
    requires
        o <= isize::MAX,
        floor <= isize::MAX,
        o + delta <= isize::MAX,
        o + delta >= isize::MIN,
    ensures
        r == shifted(o as int, floor as int, delta as int),
{
    let v = o as isize + delta;
    if v < floor as isize {
        floor
    } else {
        v as usize
    }
}

/// Where a reindent's replaced bytes end: the line start when spaces
/// go in, `-delta` bytes further when they come out.
pub open spec fn reindent_end(ls: int, delta: int) -> int {
    if delta >= 0 {
        ls
    } else {
        ls - delta
    }
}

/// What a reindent puts at the line start.
pub open spec fn reindent_text(delta: int) -> Seq<char> {
    if delta >= 0 {
        spaces(delta)
    } else {
        Seq::<char>::empty()
    }
}

/// A reindent of line `line_ix` by `delta` applies to the text `t`: the
/// line exists, and an outdent removes no more than the text holds.
pub open spec fn reindent_fits(t: Seq<char>, line_ix: int, delta: int) -> bool {
    &&& line_ix < rope_len_lines(t)
    &&& reindent_end(rope_line_to_byte(t, line_ix) as int, delta) <= blen(t)
}

impl EditorCore {
    /// Indents line `line_ix` by `delta` spaces, or outdents it by
    /// removing `-delta` bytes from its start, as a step of its own; the
    /// selection moves with the line's text, never before the line.
    /// Returns false, and changes nothing, when the line does not exist
    /// or the outdent reaches past the end of the text.
    pub fn reindent_line(&mut self, line_ix: usize, delta: isize, now: u64) -> (r: bool)
        requires
            old(self).wf(),
            old(self)@.selection.hi() <= blen(old(self)@.text),
            blen(old(self)@.text) + (if delta >= 0 { delta as int } else { -delta }) <= isize::MAX,
        ensures
            final(self).wf(),
            r == reindent_fits(old(self)@.text, line_ix as int, delta as int),
            !r ==> final(self)@ == old(self)@,
            r ==> ({
                let ls = rope_line_to_byte(old(self)@.text, line_ix as int) as int;
                exists|mid: CoreView|
                    #[trigger] edited(
                        old(self)@,
                        mid,
                        ls,
                        reindent_end(ls, delta as int),
                        reindent_text(delta as int),
                        now,
                    ) && final(self)@ == (CoreView {
                        selection: Selection {
                            anchor: shifted(old(self)@.selection.anchor as int, ls, delta as int),
                            head: shifted(old(self)@.selection.head as int, ls, delta as int),
                        },
                        broken: true,
                        ..mid
                    })
            }),
    {
        let ghost before = self@;
        if line_ix >= self.buffer.line_count() {
            return false;
        }
        let line_start = self.buffer.line_range(line_ix).start;
        let total = self.buffer.len_bytes();
        if delta < 0 && (0 - delta) as usize > total - line_start {
            return false;
        }
        let saved = self.selection;
        let ghost ls = line_start as int;
        if delta >= 0 {
            let pad = spaces_string(delta as usize);
            proof {
                let sp = spaces(delta as int);
                assert(vstd::utf8::is_ascii_chars(sp));
                vstd::utf8::is_ascii_chars_encode_utf8(sp);
                assert(pad@ == reindent_text(delta as int));
            }
            self.replace_range(line_start..line_start, pad.as_str(), now);
        } else {
            let cut = (0 - delta) as usize;
            let nothing = String::new();
            proof {
                assert(vstd::utf8::encode_utf8(Seq::<char>::empty()) =~= Seq::<u8>::empty());
                assert(nothing@ == reindent_text(delta as int));
            }
            self.replace_range(line_start..line_start + cut, nothing.as_str(), now);
        }
        let ghost mid = self@;
        assert(edited(before, mid, ls, reindent_end(ls, delta as int), reindent_text(delta as int), now));
        self.break_undo_group();
        let anchor = shift_offset(saved.anchor, line_start, delta);
        let head = shift_offset(saved.head, line_start, delta);
        self.selection = Selection { anchor, head };
        assert(self@ == (CoreView { selection: Selection { anchor, head }, broken: true, ..mid }));
        true
    }
}

} // verus!
