//! A modal list of check boxes: its items, the set of checked items, the
//! cursor, and where each line is drawn.

use vstd::prelude::*;

verus! {

/// Number of items that a list of check boxes can hold.
pub const MAX_ITEMS: usize = 8;

/// The position of the first empty place of `s`, or the length of `s`
/// where it has none.
pub open spec fn first_free(s: Seq<Option<Seq<char>>>) -> int
    decreases s.len(),
{
    if s.len() == 0 || s[0] is None {
        0
    } else {
        1 + first_free(s.drop_first())
    }
}

/// The position of the first place of `s` that holds `name`, or the length
/// of `s` where none does.
pub open spec fn first_named(s: Seq<Option<Seq<char>>>, name: Seq<char>) -> int
    decreases s.len(),
{
    if s.len() == 0 || s[0] == Some(name) {
        0
    } else {
        1 + first_named(s.drop_first(), name)
    }
}

/// Number of places of `s` that hold a name.
pub open spec fn count_some(s: Seq<Option<Seq<char>>>) -> int
    decreases s.len(),
{
    if s.len() == 0 {
        0
    } else {
        count_some(s.drop_last()) + if s.last() is Some {
            1int
        } else {
            0int
        }
    }
}

/// The position of the place that holds the `n`-th name of `s`, counting
/// from 0, or the length of `s` where it holds no more than `n` names.
pub open spec fn nth_some(s: Seq<Option<Seq<char>>>, n: int) -> int
    decreases s.len(),
{
    if s.len() == 0 {
        0
    } else if s[0] is Some && n == 0 {
        0
    } else {
        1 + nth_some(s.drop_first(), if s[0] is Some { n - 1 } else { n })
    }
}

/// The names of a list of places, as mathematical values.
pub open spec fn places(v: Seq<Option<String>>) -> Seq<Option<Seq<char>>> {
    Seq::new(
        v.len(),
        |i: int|
            match v[i] {
                Some(s) => Some(s@),
                None => None,
            },
    )
}

/// `first_free` is the one position before which every place is taken and
/// at which the list ends or has an empty place.
pub proof fn lemma_first_free(s: Seq<Option<Seq<char>>>, p: int)
    requires
        0 <= p <= s.len(),
        forall|j: int| 0 <= j < p ==> s[j] is Some,
        p < s.len() ==> s[p] is None,
    ensures
        first_free(s) == p,
    decreases s.len(),
{
    if p > 0 {
        let t = s.drop_first();
        assert forall|j: int| 0 <= j < p - 1 implies t[j] is Some by {
            assert(t[j] == s[j + 1]);
        }
        lemma_first_free(t, p - 1);
    }
}

/// `first_named` is the one position before which no place holds the name
/// and at which the list ends or holds it.
pub proof fn lemma_first_named(s: Seq<Option<Seq<char>>>, name: Seq<char>, p: int)
    requires
        0 <= p <= s.len(),
        forall|j: int| 0 <= j < p ==> s[j] != Some(name),
        p < s.len() ==> s[p] == Some(name),
    ensures
        first_named(s, name) == p,
    decreases s.len(),
{
    if p > 0 {
        let t = s.drop_first();
        assert forall|j: int| 0 <= j < p - 1 implies t[j] != Some(name) by {
            assert(t[j] == s[j + 1]);
        }
        lemma_first_named(t, name, p - 1);
    }
}

/// The search for the `n`-th name may go on behind a prefix that holds
/// `seen` names.
pub proof fn lemma_nth_some(s: Seq<Option<Seq<char>>>, n: int, p: int)
    requires
        0 <= p <= s.len(),
        0 <= count_some(s.subrange(0, p)) <= n,
    ensures
        nth_some(s, n) == p + nth_some(
            s.subrange(p, s.len() as int),
            n - count_some(s.subrange(0, p)),
        ),
        count_some(s.subrange(0, p)) >= 0,
    decreases p,
{
    if p == 0 {
        assert(s.subrange(0, s.len() as int) =~= s);
        assert(s.subrange(0, 0) =~= Seq::<Option<Seq<char>>>::empty());
    } else {
        let head = s.subrange(0, p);
        assert(head.drop_last() =~= s.subrange(0, p - 1));
        assert(head.last() == s[p - 1]);
        lemma_count_nonneg(s.subrange(0, p - 1));
        lemma_nth_some(s, n, p - 1);
        let tail = s.subrange(p - 1, s.len() as int);
        assert(tail.drop_first() =~= s.subrange(p, s.len() as int));
        assert(tail[0] == s[p - 1]);
    }
}

/// A count of names is not negative.
pub proof fn lemma_count_nonneg(s: Seq<Option<Seq<char>>>)
    ensures
        count_some(s) >= 0,
    decreases s.len(),
{
    if s.len() > 0 {
        lemma_count_nonneg(s.drop_last());
    }
}

/// A count of names does not exceed the number of places.
pub proof fn lemma_count_bound(s: Seq<Option<Seq<char>>>)
    ensures
        count_some(s) <= s.len(),
    decreases s.len(),
{
    if s.len() > 0 {
        lemma_count_bound(s.drop_last());
    }
}

/// Filling an empty place adds one to the count of names.
pub proof fn lemma_count_fill(s: Seq<Option<Seq<char>>>, p: int, name: Seq<char>)
    requires
        0 <= p < s.len(),
        s[p] is None,
    ensures
        count_some(s.update(p, Some(name))) == count_some(s) + 1,
    decreases s.len(),
{
    let u = s.update(p, Some(name));
    if p == s.len() - 1 {
        assert(u.drop_last() =~= s.drop_last());
    } else {
        assert(u.drop_last() =~= s.drop_last().update(p, Some(name)));
        lemma_count_fill(s.drop_last(), p, name);
    }
}

/// The set of checked items, held in a fixed number of places.
#[derive(Debug)]
pub struct CheckBoxPayload {
    /// The checked items.
    pub items: Vec<Option<String>>,
}

impl View for CheckBoxPayload {
    type V = Seq<Option<Seq<char>>>;

    open spec fn view(&self) -> Seq<Option<Seq<char>>> {
        places(self.items@)
    }
}

/// The payload after `name` was checked: as it was where it holds the
/// name or has no empty place, and with the name in its first empty place
/// otherwise.
pub open spec fn checked(p: Seq<Option<Seq<char>>>, name: Seq<char>) -> Seq<Option<Seq<char>>> {
    if first_named(p, name) < p.len() || first_free(p) >= p.len() {
        p
    } else {
        p.update(first_free(p), Some(name))
    }
}

/// The payload after `name` was unchecked: the first place that holds the
/// name is empty.
pub open spec fn unchecked(p: Seq<Option<Seq<char>>>, name: Seq<char>) -> Seq<Option<Seq<char>>> {
    if first_named(p, name) < p.len() {
        p.update(first_named(p, name), None)
    } else {
        p
    }
}

/// The payload after the check mark of `name` was turned over.
pub open spec fn toggled(p: Seq<Option<Seq<char>>>, name: Seq<char>) -> Seq<Option<Seq<char>>> {
    if first_named(p, name) < p.len() {
        unchecked(p, name)
    } else {
        checked(p, name)
    }
}

impl CheckBoxPayload {
    /// A payload with nothing checked.
    pub fn new() -> (p: CheckBoxPayload)
        ensures
            p@.len() == MAX_ITEMS,
            forall|i: int| 0 <= i < MAX_ITEMS ==> p@[i] is None,
    {
        let mut items: Vec<Option<String>> = Vec::new();
        let mut i: usize = 0;
        while i < MAX_ITEMS
            invariant
                i <= MAX_ITEMS,
                items@.len() == i,
                forall|j: int| 0 <= j < i ==> items@[j] is None,
            decreases MAX_ITEMS - i,
        {
            items.push(None);
            i += 1;
        }
        CheckBoxPayload { items }
    }

    /// The first place that holds `name`, or the number of places.
    pub fn position(&self, name: &String) -> (p: usize)
        ensures
            p == first_named(self@, name@),
            p <= self@.len(),
    {
        let n = self.items.len();
        let mut i: usize = 0;
        while i < n
            invariant
                i <= n,
                n == self@.len(),
                forall|j: int| 0 <= j < i ==> self@[j] != Some(name@),
            decreases n - i,
        {
            let hit = match &self.items[i] {
                Some(item) => *item == *name,
                None => false,
            };
            if hit {
                proof {
                    lemma_first_named(self@, name@, i as int);
                }
                return i;
            }
            i += 1;
        }
        proof {
            lemma_first_named(self@, name@, n as int);
        }
        n
    }

    /// Whether `name` is checked.
    pub fn contains(&self, name: &String) -> (r: bool)
        ensures
            r == (first_named(self@, name@) < self@.len()),
    {
        self.position(name) < self.items.len()
    }

    /// Checks `name`; `false` where the payload has no place left for it.
    pub fn add(&mut self, name: &String) -> (r: bool)
        ensures
            final(self)@ == checked(old(self)@, name@),
            r == (first_named(old(self)@, name@) < old(self)@.len() || first_free(old(self)@)
                < old(self)@.len()),
    {
        if self.contains(name) {
            return true;
        }
        let n = self.items.len();
        let mut i: usize = 0;
        while i < n
            invariant
                i <= n,
                n == self@.len(),
                *self == *old(self),
                first_named(self@, name@) >= self@.len(),
                forall|j: int| 0 <= j < i ==> self@[j] is Some,
            decreases n - i,
        {
            if self.items[i].is_none() {
                proof {
                    lemma_first_free(self@, i as int);
                }
                self.items.set(i, Some(name.clone()));
                assert(self@ =~= old(self)@.update(i as int, Some(name@)));
                return true;
            }
            i += 1;
        }
        proof {
            lemma_first_free(self@, n as int);
        }
        false
    }

    /// Unchecks `name`; `false` where it was not checked.
    pub fn remove(&mut self, name: &String) -> (r: bool)
        ensures
            final(self)@ == unchecked(old(self)@, name@),
            r == (first_named(old(self)@, name@) < old(self)@.len()),
    {
        let p = self.position(name);
        if p < self.items.len() {
            self.items.set(p, None);
            assert(self@ =~= old(self)@.update(p as int, None));
            true
        } else {
            false
        }
    }
}

/// A modal list of check boxes.
#[derive(Debug)]
pub struct CheckBoxes {
    /// The items, in the order of the lines.
    pub items: Vec<Option<String>>,
    /// The connection that takes the payload when the list is closed.
    pub action_conn: u32,
    /// The opcode under which the payload is sent.
    pub action_opcode: u32,
    /// The checked items.
    pub action_payload: CheckBoxPayload,
    /// Number of items.
    pub max_items: i16,
    /// The line of the cursor.
    pub select_index: i16,
}

/// A list of check boxes as mathematical values.
pub struct CheckBoxesView {
    pub items: Seq<Option<Seq<char>>>,
    pub action_conn: u32,
    pub action_opcode: u32,
    pub payload: Seq<Option<Seq<char>>>,
    pub max_items: int,
    pub select_index: int,
}

impl View for CheckBoxes {
    type V = CheckBoxesView;

    open spec fn view(&self) -> CheckBoxesView {
        CheckBoxesView {
            items: places(self.items@),
            action_conn: self.action_conn,
            action_opcode: self.action_opcode,
            payload: self.action_payload@,
            max_items: self.max_items as int,
            select_index: self.select_index as int,
        }
    }
}

/// The keys that the list knows.
pub const KEY_LEFT: char = '\u{2190}';

pub const KEY_UP: char = '\u{2191}';

pub const KEY_RIGHT: char = '\u{2192}';

pub const KEY_DOWN: char = '\u{2193}';

pub const KEY_SELECT: char = '\u{2234}';

pub const KEY_ENTER: char = '\u{d}';

/// Whether a key selects the line of the cursor.
pub open spec fn selects(k: char) -> bool {
    k == KEY_SELECT || k == KEY_ENTER
}

/// The list after key `k`. The up and down keys move the cursor, up no
/// further than the first line and down no further than one past the line
/// that closes the list. A selecting key on the line of an item turns the
/// item's check mark over. Any other key changes nothing.
pub open spec fn after_key(v: CheckBoxesView, k: char) -> CheckBoxesView {
    if k == KEY_UP {
        CheckBoxesView {
            select_index: if v.select_index > 0 {
                v.select_index - 1
            } else {
                v.select_index
            },
            ..v
        }
    } else if k == KEY_DOWN {
        CheckBoxesView {
            select_index: if v.select_index < v.max_items + 1 {
                v.select_index + 1
            } else {
                v.select_index
            },
            ..v
        }
    } else if selects(k) && v.select_index < v.max_items && 0 <= v.select_index && nth_some(
        v.items,
        v.select_index,
    ) < v.items.len() {
        CheckBoxesView {
            payload: toggled(v.payload, v.items[nth_some(v.items, v.select_index)]->0),
            ..v
        }
    } else {
        v
    }
}

/// Whether key `k` closes the list, so that its payload is to be sent: a
/// selecting key with the cursor past the items.
pub open spec fn closes(v: CheckBoxesView, k: char) -> bool {
    selects(k) && v.select_index >= v.max_items
}

/// One piece of text of the drawn list, with the corners of its box.
#[derive(Debug, PartialEq, Eq)]
pub struct TextBox {
    /// The text.
    pub text: String,
    /// Left edge.
    pub left: i32,
    /// Top edge.
    pub top: i32,
    /// Right edge.
    pub right: i32,
    /// Bottom edge.
    pub bottom: i32,
}

/// A piece of text of the drawn list as mathematical values.
pub struct TextBoxView {
    pub text: Seq<char>,
    pub left: int,
    pub top: int,
    pub right: int,
    pub bottom: int,
}

impl View for TextBox {
    type V = TextBoxView;

    open spec fn view(&self) -> TextBoxView {
        TextBoxView {
            text: self.text@,
            left: self.left as int,
            top: self.top as int,
            right: self.right as int,
            bottom: self.bottom as int,
        }
    }
}

/// The measures of the canvas that the list is drawn on.
#[derive(Clone, Copy, Debug)]
pub struct Canvas {
    /// Height of a line of text.
    pub line_height: i16,
    /// Margin at the left and right.
    pub margin: i16,
    /// Width of the canvas.
    pub canvas_width: i16,
}

/// Side of the box of a cursor or check mark.
pub const MARK_SIDE: i32 = 36;

/// Distance from the cursor to the check mark, and from the check mark to
/// the text.
pub const MARK_STEP: i32 = 20;

/// By how much a mark is drawn above its line.
pub const MARK_RISE: i32 = 2;

/// The cursor mark.
pub open spec fn cursor_text() -> Seq<char> {
    seq!['\u{bb}']
}

/// The check mark.
pub open spec fn check_text() -> Seq<char> {
    seq!['\u{d7}']
}

/// The box of the cursor on the line at height `y`.
pub open spec fn cursor_box(c: Canvas, y: int) -> TextBoxView {
    TextBoxView {
        text: cursor_text(),
        left: c.margin as int,
        top: y - MARK_RISE,
        right: c.margin + MARK_SIDE,
        bottom: y - MARK_RISE + MARK_SIDE,
    }
}

/// The box of the check mark on the line at height `y`.
pub open spec fn check_box(c: Canvas, y: int) -> TextBoxView {
    TextBoxView {
        text: check_text(),
        left: c.margin + MARK_STEP,
        top: y - MARK_RISE,
        right: c.margin + MARK_STEP + MARK_SIDE,
        bottom: y + c.line_height,
    }
}

/// The box of the text of the line at height `y`.
pub open spec fn label_box(c: Canvas, y: int, text: Seq<char>) -> TextBoxView {
    TextBoxView {
        text,
        left: c.margin + MARK_STEP + MARK_STEP,
        top: y,
        right: c.canvas_width - c.margin,
        bottom: y + c.line_height,
    }
}

/// The boxes of the first `upto` places of the list, drawn from height
/// `at_height` down: for each item its cursor where the cursor is on its
/// line, its check mark where it is checked, and its name.
pub open spec fn item_boxes(v: CheckBoxesView, c: Canvas, at_height: int, upto: int) -> Seq<
    TextBoxView,
>
    decreases upto,
{
    if upto <= 0 {
        Seq::<TextBoxView>::empty()
    } else {
        let before = item_boxes(v, c, at_height, upto - 1);
        match v.items[upto - 1] {
            None => before,
            Some(name) => {
                let line = count_some(v.items.subrange(0, upto - 1));
                let y = at_height + line * c.line_height;
                let with_cursor = if line == v.select_index {
                    before.push(cursor_box(c, y))
                } else {
                    before
                };
                let with_check = if first_named(v.payload, name) < v.payload.len() {
                    with_cursor.push(check_box(c, y))
                } else {
                    with_cursor
                };
                with_check.push(label_box(c, y, name))
            },
        }
    }
}

/// The boxes of the whole list: those of the items, then, one line below
/// an empty line, the line that closes the list, with the cursor where the
/// cursor is on no item.
pub open spec fn all_boxes(v: CheckBoxesView, c: Canvas, at_height: int, ok_label: Seq<char>) -> Seq<
    TextBoxView,
> {
    let lines = count_some(v.items);
    let y = at_height + (lines + 1) * c.line_height;
    let items = item_boxes(v, c, at_height, v.items.len() as int);
    let with_cursor = if 0 <= v.select_index < lines {
        items
    } else {
        items.push(cursor_box(c, y))
    };
    with_cursor.push(label_box(c, y, ok_label))
}

/// The boxes of a list of boxes, as mathematical values.
pub open spec fn box_views(v: Seq<TextBox>) -> Seq<TextBoxView> {
    Seq::new(v.len(), |i: int| v[i]@)
}

impl CheckBoxes {
    /// The list has as many places as a list can hold, and counts its
    /// items.
    pub open spec fn wf(&self) -> bool {
        &&& self.items@.len() == MAX_ITEMS
        &&& self.max_items == count_some(self@.items)
    }

    /// An empty list that sends its payload to `action_conn` under
    /// `action_opcode`.
    pub fn new(action_conn: u32, action_opcode: u32) -> (boxes: CheckBoxes)
        ensures
            boxes.wf(),
            boxes@.action_conn == action_conn,
            boxes@.action_opcode == action_opcode,
            boxes@.max_items == 0,
            boxes@.select_index == 0,
            forall|i: int| 0 <= i < MAX_ITEMS ==> boxes@.items[i] is None,
            boxes@.payload.len() == MAX_ITEMS,
            forall|i: int| 0 <= i < MAX_ITEMS ==> boxes@.payload[i] is None,
    {
        let mut items: Vec<Option<String>> = Vec::new();
        let mut i: usize = 0;
        while i < MAX_ITEMS
            invariant
                i <= MAX_ITEMS,
                items@.len() == i,
                forall|j: int| 0 <= j < i ==> items@[j] is None,
                count_some(places(items@)) == 0,
            decreases MAX_ITEMS - i,
        {
            let ghost before = places(items@);
            items.push(None);
            i += 1;
            assert(places(items@).drop_last() =~= before);
        }
        CheckBoxes {
            items,
            action_conn,
            action_opcode,
            action_payload: CheckBoxPayload::new(),
            max_items: 0,
            select_index: 0,
        }
    }

    /// Puts `new_item` into the first empty place of the list. Where the
    /// list is full, the item comes back.
    pub fn add_item(&mut self, new_item: String) -> (r: Option<String>)
        requires
            old(self).wf(),
        ensures
            final(self).wf(),
            first_free(old(self)@.items) < MAX_ITEMS ==> r is None && final(self)@ == (
            CheckBoxesView {
                items: old(self)@.items.update(first_free(old(self)@.items), Some(new_item@)),
                max_items: old(self)@.max_items + 1,
                ..old(self)@
            }),
            first_free(old(self)@.items) >= MAX_ITEMS ==> r == Some(new_item) && final(self)@
                == old(self)@,
    {
        let mut i: usize = 0;
        while i < MAX_ITEMS
            invariant
                i <= MAX_ITEMS,
                *self == *old(self),
                self.wf(),
                forall|j: int| 0 <= j < i ==> self@.items[j] is Some,
            decreases MAX_ITEMS - i,
        {
            if self.items[i].is_none() {
                proof {
                    lemma_first_free(self@.items, i as int);
                    lemma_count_fill(self@.items, i as int, new_item@);
                    lemma_count_bound(self@.items);
                }
                self.max_items = self.max_items + 1;
                self.items.set(i, Some(new_item));
                assert(self@.items =~= old(self)@.items.update(i as int, Some(new_item@)));
                return None;
            }
            i += 1;
        }
        proof {
            lemma_first_free(self@.items, MAX_ITEMS as int);
        }
        Some(new_item)
    }

    /// Sets the opcode under which the payload is sent.
    pub fn set_action_opcode(&mut self, op: u32)
        ensures
            final(self)@ == (CheckBoxesView { action_opcode: op, ..old(self)@ }),
    {
        self.action_opcode = op;
    }

    /// Height of the drawn list: a line for each item and one for the line
    /// that closes the list, the margin above and below, and 5 more.
    pub fn height(&self, glyph_height: i16, margin: i16) -> (h: i32)
        requires
            self.wf(),
        ensures
            h == (self@.max_items + 1) * glyph_height + margin * 2 + 5,
    {
        proof {
            lemma_count_bound(self@.items);
            lemma_count_nonneg(self@.items);
        }
        let lines: i32 = self.max_items as i32 + 1;
        assert(lines * glyph_height as i32 <= 9 * 32767 && lines * glyph_height as i32 >= 9
            * -32768) by (nonlinear_arith)
            requires
                1 <= lines <= 9,
                -32768 <= glyph_height as i32 <= 32767,
        ;
        lines * glyph_height as i32 + margin as i32 * 2 + 5
    }

    /// Handles key `k`, and tells whether the key closes the list, so that
    /// the payload is to be sent to the connection of the list.
    pub fn key_action(&mut self, k: char) -> (r: (Option<String>, bool))
        requires
            old(self).wf(),
        ensures
            final(self).wf(),
            r.0 is None,
            r.1 == closes(old(self)@, k),
            final(self)@ == after_key(old(self)@, k),
    {
        proof {
            lemma_count_bound(self@.items);
            lemma_count_nonneg(self@.items);
        }
        if k == KEY_UP {
            if self.select_index > 0 {
                self.select_index = self.select_index - 1;
            }
        } else if k == KEY_DOWN {
            if self.select_index < self.max_items + 1 {
                self.select_index = self.select_index + 1;
            }
        } else if k == KEY_SELECT || k == KEY_ENTER {
            if self.select_index < self.max_items {
                if self.select_index >= 0 {
                    let p = self.nth_item(self.select_index as usize);
                    if p < MAX_ITEMS {
                        let name = match &self.items[p] {
                            Some(item) => item.clone(),
                            None => unreached(),
                        };
                        if self.action_payload.contains(&name) {
                            self.action_payload.remove(&name);
                        } else {
                            self.action_payload.add(&name);
                        }
                    }
                }
            } else {
                return (None, true);
            }
        }
        (None, false)
    }

    /// The place of the `n`-th item, counting from 0, or the number of
    /// places where the list holds no more than `n` items.
    pub fn nth_item(&self, n: usize) -> (p: usize)
        requires
            self.items@.len() == MAX_ITEMS,
        ensures
            p == nth_some(self@.items, n as int),
            p <= MAX_ITEMS,
            p < MAX_ITEMS ==> self@.items[p as int] is Some,
    {
        let mut seen: usize = 0;
        let mut i: usize = 0;
        proof {
            assert(self@.items.subrange(0, 0) =~= Seq::<Option<Seq<char>>>::empty());
        }
        while i < MAX_ITEMS
            invariant
                i <= MAX_ITEMS,
                self.items@.len() == MAX_ITEMS,
                seen == count_some(self@.items.subrange(0, i as int)),
                seen <= n,
                seen <= i,
            decreases MAX_ITEMS - i,
        {
            let ghost head = self@.items.subrange(0, i + 1);
            proof {
                assert(head.drop_last() =~= self@.items.subrange(0, i as int));
                assert(head.last() == self@.items[i as int]);
                lemma_nth_some(self@.items, n as int, i as int);
                let tail = self@.items.subrange(i as int, MAX_ITEMS as int);
                assert(tail[0] == self@.items[i as int]);
            }
            if self.items[i].is_some() {
                if seen == n {
                    return i;
                }
                seen += 1;
            }
            i += 1;
        }
        proof {
            lemma_nth_some(self@.items, n as int, MAX_ITEMS as int);
            assert(self@.items.subrange(MAX_ITEMS as int, MAX_ITEMS as int).len() == 0);
        }
        MAX_ITEMS
    }

    /// Where each piece of text of the list is drawn, from height
    /// `at_height` down, with `ok_label` on the line that closes the list.
    pub fn layout(&self, canvas: Canvas, at_height: i16, ok_label: &str) -> (boxes: Vec<TextBox>)
        requires
            self.items@.len() == MAX_ITEMS,
        ensures
            box_views(boxes@) == all_boxes(self@, canvas, at_height as int, ok_label@),
    {
        let mut boxes: Vec<TextBox> = Vec::new();
        let mut line: i32 = 0;
        let mut i: usize = 0;
        proof {
            assert(self@.items.subrange(0, 0) =~= Seq::<Option<Seq<char>>>::empty());
            assert(box_views(boxes@) =~= item_boxes(self@, canvas, at_height as int, 0));
        }
        while i < MAX_ITEMS
            invariant
                i <= MAX_ITEMS,
                self.items@.len() == MAX_ITEMS,
                line == count_some(self@.items.subrange(0, i as int)),
                0 <= line <= i,
                box_views(boxes@) == item_boxes(self@, canvas, at_height as int, i as int),
            decreases MAX_ITEMS - i,
        {
            let ghost head = self@.items.subrange(0, i + 1);
            let ghost shown = box_views(boxes@);
            proof {
                assert(head.drop_last() =~= self@.items.subrange(0, i as int));
                assert(head.last() == self@.items[i as int]);
            }
            match &self.items[i] {
                Some(item) => {
                    let y: i32 = row_top(at_height, line, canvas.line_height);
                    if line == self.select_index as i32 {
                        boxes.push(cursor_at(canvas, y));
                    }
                    let ghost with_cursor = box_views(boxes@);
                    if self.action_payload.contains(item) {
                        boxes.push(check_at(canvas, y));
                    }
                    let ghost with_check = box_views(boxes@);
                    boxes.push(label_at(canvas, y, item.clone()));
                    line += 1;
                    proof {
                        assert(with_cursor =~= if line - 1 == self.select_index {
                            shown.push(cursor_box(canvas, y as int))
                        } else {
                            shown
                        });
                        assert(with_check =~= if first_named(self@.payload, item@)
                            < self@.payload.len() {
                            with_cursor.push(check_box(canvas, y as int))
                        } else {
                            with_cursor
                        });
                        assert(box_views(boxes@) =~= with_check.push(
                            label_box(canvas, y as int, item@),
                        ));
                    }
                },
                None => {},
            }
            i += 1;
        }
        proof {
            assert(self@.items.subrange(0, MAX_ITEMS as int) =~= self@.items);
        }
        let ghost items = box_views(boxes@);
        let y: i32 = row_top(at_height, line + 1, canvas.line_height);
        let on_item = 0 <= self.select_index && (self.select_index as i32) < line;
        if !on_item {
            boxes.push(cursor_at(canvas, y));
        }
        let ghost with_cursor = box_views(boxes@);
        boxes.push(label_at(canvas, y, ok_label.to_owned()));
        proof {
            assert(with_cursor =~= if on_item {
                items
            } else {
                items.push(cursor_box(canvas, y as int))
            });
            assert(box_views(boxes@) =~= with_cursor.push(label_box(canvas, y as int, ok_label@)));
        }
        boxes
    }
}

/// Height at which line `line` starts.
pub fn row_top(at_height: i16, line: i32, line_height: i16) -> (y: i32)
    requires
        0 <= line <= 9,
    ensures
        y == at_height + line * line_height,
        -400000 <= y <= 400000,
{
    assert(line * line_height as i32 <= 9 * 32767 && line * line_height as i32 >= 9 * -32768)
        by (nonlinear_arith)
        requires
            0 <= line <= 9,
            -32768 <= line_height as i32 <= 32767,
    ;
    at_height as i32 + line * line_height as i32
}

/// The cursor on the line at height `y`.
pub fn cursor_at(c: Canvas, y: i32) -> (b: TextBox)
    requires
        -400000 <= y <= 400000,
    ensures
        b@ == cursor_box(c, y as int),
{
    proof {
        reveal_strlit("\u{bb}");
    }
    let text = "\u{bb}".to_owned();
    assert(text@ =~= cursor_text());
    TextBox {
        text,
        left: c.margin as i32,
        top: y - MARK_RISE,
        right: c.margin as i32 + MARK_SIDE,
        bottom: y - MARK_RISE + MARK_SIDE,
    }
}

/// The check mark on the line at height `y`.
pub fn check_at(c: Canvas, y: i32) -> (b: TextBox)
    requires
        -400000 <= y <= 400000,
    ensures
        b@ == check_box(c, y as int),
{
    proof {
        reveal_strlit("\u{d7}");
    }
    let text = "\u{d7}".to_owned();
    assert(text@ =~= check_text());
    TextBox {
        text,
        left: c.margin as i32 + MARK_STEP,
        top: y - MARK_RISE,
        right: c.margin as i32 + MARK_STEP + MARK_SIDE,
        bottom: y + c.line_height as i32,
    }
}

/// The text of the line at height `y`.
pub fn label_at(c: Canvas, y: i32, text: String) -> (b: TextBox)
    requires
        -400000 <= y <= 400000,
    ensures
        b@ == label_box(c, y as int, text@),
{
    TextBox {
        text,
        left: c.margin as i32 + MARK_STEP + MARK_STEP,
        top: y,
        right: c.canvas_width as i32 - c.margin as i32,
        bottom: y + c.line_height as i32,
    }
}

} // verus!
