//! The editor's dialogs as state machines: the SAUCE form, the command
//! palette, the character picker, the quick color palette, the one-line
//! prompt and the yes/no questions. The terminal front end draws each
//! dialog and hands it the keys and clicks; each step says whether the
//! dialog stays open and what it ends with.
use vstd::prelude::*;

use crate::editor::{Cmd, Key, KeyPress, MouseKind};
use crate::cp437::{byte_to_char, glyph};
use crate::sauce::{Sauce, SauceText, is_white_space, is_whitespace, trim_end, string_push};
use crate::tools::{lowercase, num_text, push_number, push_text, to_lowercase};
use vstd::string::StrSliceExecFns;

verus! {

/// The text without its leading white space.
pub open spec fn trim_start(cs: Seq<char>) -> Seq<char>
    decreases cs.len(),
{
    if cs.len() > 0 && is_white_space(cs[0]) {
        trim_start(cs.drop_first())
    } else {
        cs
    }
}

/// The text without leading and trailing white space, as `str::trim`
/// gives it.
pub open spec fn trimmed(cs: Seq<char>) -> Seq<char> {
    trim_start(trim_end(cs))
}

proof fn lemma_trim_end(cs: Seq<char>, k: int)
    requires
        0 <= k <= cs.len(),
        forall|j: int| k <= j < cs.len() ==> is_white_space(#[trigger] cs[j]),
    ensures
        trim_end(cs) == trim_end(cs.take(k)),
    decreases cs.len() - k,
{
    if k < cs.len() {
        assert(cs.drop_last().take(k) =~= cs.take(k));
        lemma_trim_end(cs.drop_last(), k);
    } else {
        assert(cs.take(k) =~= cs);
    }
}

proof fn lemma_trim_start(cs: Seq<char>, i: int)
    requires
        0 <= i <= cs.len(),
        forall|j: int| 0 <= j < i ==> is_white_space(#[trigger] cs[j]),
        i == cs.len() || !is_white_space(cs[i]),
    ensures
        trim_start(cs) == cs.subrange(i, cs.len() as int),
    decreases i,
{
    if i > 0 {
        assert(cs.drop_first().subrange(i - 1, cs.len() - 1) =~= cs.subrange(i, cs.len() as int));
        lemma_trim_start(cs.drop_first(), i - 1);
    } else {
        assert(cs.subrange(0, cs.len() as int) =~= cs);
    }
}

/// The text of `v` with leading and trailing white space removed.
pub fn trim_chars(v: &Vec<char>) -> (s: String)
    ensures
        s@ == trimmed(v@),
{
    let mut k = v.len();
    while k > 0 && is_whitespace(v[k - 1])
        invariant
            k <= v@.len(),
            forall|j: int| k <= j < v@.len() ==> is_white_space(#[trigger] v@[j]),
        decreases k,
    {
        k = k - 1;
    }
    let ghost t = v@.take(k as int);
    proof {
        lemma_trim_end(v@, k as int);
        if k > 0 {
            assert(t.drop_last() =~= v@.take(k - 1));
            assert(trim_end(t) == t);
        } else {
            assert(trim_end(t) == t);
        }
    }
    let mut i: usize = 0;
    while i < k && is_whitespace(v[i])
        invariant
            i <= k <= v@.len(),
            t == v@.take(k as int),
            forall|j: int| 0 <= j < i ==> is_white_space(#[trigger] t[j]),
        decreases k - i,
    {
        i = i + 1;
    }
    proof {
        lemma_trim_start(t, i as int);
    }
    let mut s = String::new();
    let mut p = i;
    while p < k
        invariant
            i <= p <= k <= v@.len(),
            t == v@.take(k as int),
            s@ == t.subrange(i as int, p as int),
        decreases k - p,
    {
        string_push(&mut s, v[p]);
        p = p + 1;
        assert(s@ =~= t.subrange(i as int, p as int));
    }
    s
}

/// The chars of a text, in order.
pub fn chars_of(s: &str) -> (v: Vec<char>)
    ensures
        v@ == s@,
{
    let n = s.unicode_len();
    let mut v: Vec<char> = Vec::new();
    let mut i: usize = 0;
    while i < n
        invariant
            i <= n,
            n == s@.len(),
            v@ == s@.take(i as int),
        decreases n - i,
    {
        v.push(s.get_char(i));
        i = i + 1;
        assert(v@ =~= s@.take(i as int));
    }
    assert(s@.take(n as int) =~= s@);
    v
}

/// The text of a sequence of chars.
pub fn text_of(v: &Vec<char>) -> (s: String)
    ensures
        s@ == v@,
{
    let mut s = String::new();
    let mut i: usize = 0;
    while i < v.len()
        invariant
            i <= v@.len(),
            s@ == v@.take(i as int),
        decreases v@.len() - i,
    {
        string_push(&mut s, v[i]);
        i = i + 1;
        assert(s@ =~= v@.take(i as int));
    }
    assert(v@.take(v@.len() as int) =~= v@);
    s
}


/// How many chars each form field takes: title, author, group.
pub open spec fn field_max(i: int) -> int {
    if i == 0 {
        35
    } else {
        20
    }
}

/// The SAUCE form: three text fields and the attach switch; `sel` is
/// the focused line (0 to 2 the fields, 3 the switch).
pub struct SauceForm {
    pub title: Vec<char>,
    pub author: Vec<char>,
    pub group: Vec<char>,
    pub attach: bool,
    pub sel: usize,
}

#[verifier::ext_equal]
pub struct FormView {
    pub fields: Seq<Seq<char>>,
    pub attach: bool,
    pub sel: int,
}

impl View for SauceForm {
    type V = FormView;

    open spec fn view(&self) -> FormView {
        FormView { fields: seq![self.title@, self.author@, self.group@], attach: self.attach, sel: self.sel as int }
    }
}

/// Where a dialog is after a step.
#[derive(Clone, Copy, Debug, PartialEq, Eq, Structural)]
pub enum FormStep {
    Stay,
    Cancel,
    Accept,
}

/// The screen cell of the form's top left corner, and its inner width.
pub const FORM_X: u16 = 8;
pub const FORM_Y: u16 = 2;
pub const FORM_W: u16 = 50;

/// A record with nothing in it, as a new `Sauce` has.
pub open spec fn empty_record(t: SauceText) -> bool {
    t.title.len() == 0 && t.author.len() == 0 && t.group.len() == 0 && t.date.len() == 0
        && t.comments.len() == 0 && !t.ice
}

/// What a key does in the form: Esc cancels, Enter accepts, Up/Down (and
/// Shift-Tab/Tab) move the focus around the four lines, Backspace deletes
/// the focused field's last char, Left/Right and Space flip the switch
/// when it has the focus, and a char without Ctrl goes into the focused
/// field while it has room.
pub open spec fn form_key(f: FormView, k: KeyPress) -> (FormView, FormStep) {
    match k.key {
        Key::Esc => (f, FormStep::Cancel),
        Key::Enter => (f, FormStep::Accept),
        Key::Up | Key::BackTab => (FormView { sel: (f.sel + 3) % 4, ..f }, FormStep::Stay),
        Key::Down | Key::Tab => (FormView { sel: (f.sel + 1) % 4, ..f }, FormStep::Stay),
        Key::Backspace => if f.sel < 3 && f.fields[f.sel].len() > 0 {
            (FormView { fields: f.fields.update(f.sel, f.fields[f.sel].drop_last()), ..f }, FormStep::Stay)
        } else {
            (f, FormStep::Stay)
        },
        Key::Left | Key::Right => if f.sel == 3 {
            (FormView { attach: !f.attach, ..f }, FormStep::Stay)
        } else {
            (f, FormStep::Stay)
        },
        Key::Char(c) => if c == ' ' && f.sel == 3 {
            (FormView { attach: !f.attach, ..f }, FormStep::Stay)
        } else if !k.ctrl && f.sel < 3 && f.fields[f.sel].len() < field_max(f.sel) {
            (FormView { fields: f.fields.update(f.sel, f.fields[f.sel].push(c)), ..f }, FormStep::Stay)
        } else {
            (f, FormStep::Stay)
        },
        _ => (f, FormStep::Stay),
    }
}

/// What a left click at screen cell (col, row) does: a field's row
/// focuses it, the switch's row flips it when focused and focuses it,
/// and a click outside the box cancels.
pub open spec fn form_click(f: FormView, col: int, row: int) -> (FormView, FormStep) {
    let in_box = FORM_X <= col < FORM_X + FORM_W + 2 && FORM_Y <= row <= FORM_Y + 6;
    if FORM_Y + 1 <= row <= FORM_Y + 3 {
        (FormView { sel: row - FORM_Y - 1, ..f }, FormStep::Stay)
    } else if row == FORM_Y + 4 {
        (FormView { attach: if f.sel == 3 { !f.attach } else { f.attach }, sel: 3, ..f }, FormStep::Stay)
    } else if !in_box {
        (f, FormStep::Cancel)
    } else {
        (f, FormStep::Stay)
    }
}

impl SauceForm {
    pub open spec fn wf(&self) -> bool {
        self.sel < 4
    }

    /// The form on a record: its title, author and group; the switch is
    /// on when the record is attached on save or is still empty (opening
    /// the form on a file without one means adding one).
    pub fn new(meta: &Sauce, attached: bool) -> (f: SauceForm)
        ensures
            f.wf(),
            f@ == (FormView {
                fields: seq![meta.title@, meta.author@, meta.group@],
                attach: attached || empty_record(meta@),
                sel: 0,
            }),
    {
        let empty = meta.title.as_str().unicode_len() == 0 && meta.author.as_str().unicode_len() == 0
            && meta.group.as_str().unicode_len() == 0 && meta.date.as_str().unicode_len() == 0
            && meta.comments.len() == 0 && !meta.ice;
        let f = SauceForm {
            title: chars_of(meta.title.as_str()),
            author: chars_of(meta.author.as_str()),
            group: chars_of(meta.group.as_str()),
            attach: attached || empty,
            sel: 0,
        };
        assert(f@ =~= (FormView {
            fields: seq![meta.title@, meta.author@, meta.group@],
            attach: attached || empty_record(meta@),
            sel: 0,
        }));
        f
    }

    fn field_len(&self) -> (n: usize)
        requires
            self.sel < 3,
        ensures
            n == self@.fields[self.sel as int].len(),
    {
        if self.sel == 0 {
            self.title.len()
        } else if self.sel == 1 {
            self.author.len()
        } else {
            self.group.len()
        }
    }

    /// Handle a key (see `form_key`).
    pub fn key(&mut self, k: KeyPress) -> (r: FormStep)
        requires
            old(self).wf(),
        ensures
            final(self).wf(),
            (final(self)@, r) == form_key(old(self)@, k),
    {
        let ghost f0 = self@;
        match k.key {
            Key::Esc => {
                return FormStep::Cancel;
            },
            Key::Enter => {
                return FormStep::Accept;
            },
            Key::Up | Key::BackTab => {
                self.sel = (self.sel + 3) % 4;
            },
            Key::Down | Key::Tab => {
                self.sel = (self.sel + 1) % 4;
            },
            Key::Backspace => {
                if self.sel < 3 && self.field_len() > 0 {
                    if self.sel == 0 {
                        self.title.pop();
                    } else if self.sel == 1 {
                        self.author.pop();
                    } else {
                        self.group.pop();
                    }
                }
            },
            Key::Left | Key::Right => {
                if self.sel == 3 {
                    self.attach = !self.attach;
                }
            },
            Key::Char(c) => {
                if c == ' ' && self.sel == 3 {
                    self.attach = !self.attach;
                } else if !k.ctrl && self.sel < 3 {
                    let max: usize = if self.sel == 0 { 35 } else { 20 };
                    if self.field_len() < max {
                        if self.sel == 0 {
                            self.title.push(c);
                        } else if self.sel == 1 {
                            self.author.push(c);
                        } else {
                            self.group.push(c);
                        }
                    }
                }
            },
            _ => {},
        }
        assert(self@ =~= form_key(f0, k).0);
        FormStep::Stay
    }

    /// Handle a left click at screen cell (col, row) (see `form_click`).
    pub fn click(&mut self, col: u16, row: u16) -> (r: FormStep)
        requires
            old(self).wf(),
        ensures
            final(self).wf(),
            (final(self)@, r) == form_click(old(self)@, col as int, row as int),
    {
        let ghost f0 = self@;
        let in_box = FORM_X <= col && col < FORM_X + FORM_W + 2 && FORM_Y <= row && row <= FORM_Y + 6;
        if FORM_Y + 1 <= row && row <= FORM_Y + 3 {
            self.sel = (row - FORM_Y - 1) as usize;
        } else if row == FORM_Y + 4 {
            if self.sel == 3 {
                self.attach = !self.attach;
            }
            self.sel = 3;
        } else if !in_box {
            return FormStep::Cancel;
        }
        assert(self@ =~= form_click(f0, col as int, row as int).0);
        FormStep::Stay
    }

    /// Store the accepted fields, each trimmed, into `meta`; returns
    /// whether the record is attached on save.
    pub fn apply(&self, meta: &mut Sauce) -> (attach: bool)
        ensures
            attach == self.attach,
            final(meta)@ == (SauceText {
                title: trimmed(self.title@),
                author: trimmed(self.author@),
                group: trimmed(self.group@),
                ..old(meta)@
            }),
    {
        meta.title = trim_chars(&self.title);
        meta.author = trim_chars(&self.author);
        meta.group = trim_chars(&self.group);
        self.attach
    }
}


/// A line of the command palette: its label, the shortcut shown beside
/// it, and the command.
pub struct CommandEntry {
    pub label: String,
    pub keys: String,
    pub cmd: Cmd,
}

pub open spec fn entry_view(e: CommandEntry) -> (Seq<char>, Seq<char>, Cmd) {
    (e.label@, e.keys@, e.cmd)
}

/// The palette's fixed commands.
pub open spec fn fixed_commands() -> Seq<(Seq<char>, Seq<char>, Cmd)> {
    seq![
        ("Save file"@, "^S"@, Cmd::Save),
        ("Open file"@, "^O"@, Cmd::Load),
        ("Character picker"@, "^E"@, Cmd::CharPicker),
        ("Color palette"@, "Esc"@, Cmd::QuickPalette),
        ("Block: select"@, "^B"@, Cmd::Block),
        ("Undo"@, "^Z"@, Cmd::Undo),
        ("Redo"@, "^R"@, Cmd::Redo),
        ("Insert line"@, "^T"@, Cmd::InsertLine),
        ("Delete line"@, "^Y"@, Cmd::DeleteLine),
        ("Next character set"@, "^N"@, Cmd::NextSet),
        ("Previous character set"@, "^P"@, Cmd::PrevSet),
        ("Pick up color under cursor"@, "Alt-U"@, Cmd::PickupColor),
        ("SAUCE info (title/author/group)"@, "^D"@, Cmd::SauceInfo),
        ("Export PNG image (high-res)"@, ""@, Cmd::ExportPng),
        ("Toggle sidebar"@, "^W"@, Cmd::ToggleSidebar),
        ("Clear page"@, "Alt-C"@, Cmd::ClearPage),
        ("Help"@, "^G"@, Cmd::Help),
        ("Exit"@, "^Q"@, Cmd::Exit),
    ]
}

/// The palette label of character set `i` (counted from 1 on screen),
/// with its name and its glyphs.
pub open spec fn set_label(i: int, name: Seq<char>, glyphs: Seq<char>) -> Seq<char> {
    "Charset "@ + num_text(i + 1) + ": "@ + name + " "@ + glyphs
}

/// Every palette line: the fixed commands, then one per character set,
/// given as its name and its glyphs.
pub open spec fn command_list(sets: Seq<(Seq<char>, Seq<char>)>) -> Seq<(Seq<char>, Seq<char>, Cmd)> {
    fixed_commands() + Seq::new(
        sets.len(),
        |i: int| (set_label(i, sets[i].0, sets[i].1), ""@, Cmd::SetCharset(i as usize)),
    )
}

fn entry(label: &str, keys: &str, cmd: Cmd) -> (e: CommandEntry)
    ensures
        entry_view(e) == (label@, keys@, cmd),
{
    CommandEntry { label: label.to_owned(), keys: keys.to_owned(), cmd }
}

/// The palette's lines (see `command_list`); `sets` holds each character
/// set's name and glyphs.
pub fn command_table(sets: &Vec<(String, String)>) -> (t: Vec<CommandEntry>)
    requires
        sets@.len() < u64::MAX,
    ensures
        t@.map_values(|e: CommandEntry| entry_view(e)) == command_list(
            sets@.map_values(|p: (String, String)| (p.0@, p.1@)),
        ),
{
    let mut t: Vec<CommandEntry> = Vec::new();
    t.push(entry("Save file", "^S", Cmd::Save));
    t.push(entry("Open file", "^O", Cmd::Load));
    t.push(entry("Character picker", "^E", Cmd::CharPicker));
    t.push(entry("Color palette", "Esc", Cmd::QuickPalette));
    t.push(entry("Block: select", "^B", Cmd::Block));
    t.push(entry("Undo", "^Z", Cmd::Undo));
    t.push(entry("Redo", "^R", Cmd::Redo));
    t.push(entry("Insert line", "^T", Cmd::InsertLine));
    t.push(entry("Delete line", "^Y", Cmd::DeleteLine));
    t.push(entry("Next character set", "^N", Cmd::NextSet));
    t.push(entry("Previous character set", "^P", Cmd::PrevSet));
    t.push(entry("Pick up color under cursor", "Alt-U", Cmd::PickupColor));
    t.push(entry("SAUCE info (title/author/group)", "^D", Cmd::SauceInfo));
    t.push(entry("Export PNG image (high-res)", "", Cmd::ExportPng));
    t.push(entry("Toggle sidebar", "^W", Cmd::ToggleSidebar));
    t.push(entry("Clear page", "Alt-C", Cmd::ClearPage));
    t.push(entry("Help", "^G", Cmd::Help));
    t.push(entry("Exit", "^Q", Cmd::Exit));
    let ghost sv = sets@.map_values(|p: (String, String)| (p.0@, p.1@));
    let ghost want = command_list(sv);
    assert(t@.map_values(|e: CommandEntry| entry_view(e)) =~= fixed_commands());
    let mut i: usize = 0;
    while i < sets.len()
        invariant
            i <= sets@.len(),
            sets@.len() < u64::MAX,
            sv == sets@.map_values(|p: (String, String)| (p.0@, p.1@)),
            want == command_list(sv),
            t@.map_values(|e: CommandEntry| entry_view(e)) == want.take(18 + i),
        decreases sets@.len() - i,
    {
        let mut label = String::new();
        push_text(&mut label, "Charset ");
        push_number(&mut label, (i + 1) as u64);
        push_text(&mut label, ": ");
        push_text(&mut label, sets[i].0.as_str());
        push_text(&mut label, " ");
        push_text(&mut label, sets[i].1.as_str());
        let e = CommandEntry { label, keys: "".to_owned(), cmd: Cmd::SetCharset(i) };
        assert(entry_view(e) == want[18 + i]);
        let ghost before = t@.map_values(|e: CommandEntry| entry_view(e));
        t.push(e);
        assert(t@.map_values(|e: CommandEntry| entry_view(e)) =~= before.push(entry_view(e)));
        assert(want.take(18 + i + 1) =~= want.take(18 + i).push(want[18 + i]));
        i = i + 1;
    }
    assert(want.take(18 + i) =~= want);
    t
}


/// `t` begins with `q`.
pub open spec fn starts_with(t: Seq<char>, q: Seq<char>) -> bool {
    q.len() <= t.len() && t.subrange(0, q.len() as int) == q
}

/// `q` occurs somewhere in `t`.
pub open spec fn contains_text(t: Seq<char>, q: Seq<char>) -> bool {
    exists|i: int| 0 <= i && i + q.len() <= t.len() && #[trigger] t.subrange(i, i + q.len()) == q
}

/// Whether label `l` is shown for `q` first (its lowercase begins with
/// the query's lowercase) or later (it only contains it).
pub open spec fn prefix_hit(l: Seq<char>, q: Seq<char>) -> bool {
    starts_with(lowercase(l), lowercase(q))
}

pub open spec fn inner_hit(l: Seq<char>, q: Seq<char>) -> bool {
    !starts_with(lowercase(l), lowercase(q)) && contains_text(lowercase(l), lowercase(q))
}

/// The indices among the first `n` labels that `hit` selects, in order.
pub open spec fn hits(labels: Seq<Seq<char>>, q: Seq<char>, n: int, prefix: bool) -> Seq<int>
    decreases n,
{
    if n <= 0 {
        seq![]
    } else {
        let r = hits(labels, q, n - 1, prefix);
        let h = if prefix {
            prefix_hit(labels[n - 1], q)
        } else {
            inner_hit(labels[n - 1], q)
        };
        if h {
            r.push(n - 1)
        } else {
            r
        }
    }
}

/// The palette's order for a query: the labels that begin with it, then
/// those that only contain it, each group in table order; case does not
/// matter.
pub open spec fn palette_order(labels: Seq<Seq<char>>, q: Seq<char>) -> Seq<int> {
    hits(labels, q, labels.len() as int, true) + hits(labels, q, labels.len() as int, false)
}

fn matches_at(t: &str, q: &str, i: usize) -> (r: bool)
    requires
        i + q@.len() <= t@.len(),
    ensures
        r == (t@.subrange(i as int, i + q@.len()) == q@),
{
    let n = q.unicode_len();
    let tn = t.unicode_len();
    let mut j: usize = 0;
    while j < n
        invariant
            n == q@.len(),
            tn == t@.len(),
            i + n <= tn,
            j <= n,
            forall|m: int| 0 <= m < j ==> t@[i + m] == q@[m],
        decreases n - j,
    {
        if t.get_char(i + j) != q.get_char(j) {
            assert(t@.subrange(i as int, i + q@.len())[j as int] != q@[j as int]);
            return false;
        }
        j = j + 1;
    }
    assert(t@.subrange(i as int, i + q@.len()) =~= q@);
    true
}

fn begins_with(t: &str, q: &str) -> (r: bool)
    ensures
        r == starts_with(t@, q@),
{
    if q.unicode_len() > t.unicode_len() {
        return false;
    }
    matches_at(t, q, 0)
}

fn occurs_in(t: &str, q: &str) -> (r: bool)
    ensures
        r == contains_text(t@, q@),
{
    let tn = t.unicode_len();
    let qn = q.unicode_len();
    if qn > tn {
        return false;
    }
    if qn == 0 {
        assert(t@.subrange(0, 0 + q@.len() as int) =~= q@);
        return true;
    }
    let mut i: usize = 0;
    while i <= tn - qn
        invariant
            tn == t@.len(),
            qn == q@.len(),
            1 <= qn <= tn,
            i <= tn - qn + 1,
            forall|m: int| 0 <= m < i ==> #[trigger] t@.subrange(m, m + qn) != q@,
        decreases tn - qn + 1 - i,
    {
        if matches_at(t, q, i) {
            return true;
        }
        i = i + 1;
    }
    false
}

/// The indices of the palette lines to show for `query`, in order (see
/// `palette_order`).
pub fn filter_commands(table: &Vec<CommandEntry>, query: &str) -> (r: Vec<usize>)
    ensures
        r@.map_values(|i: usize| i as int) == palette_order(
            table@.map_values(|e: CommandEntry| e.label@),
            query@,
        ),
{
    let ghost labels = table@.map_values(|e: CommandEntry| e.label@);
    let q = to_lowercase(query);
    let mut first: Vec<usize> = Vec::new();
    let mut later: Vec<usize> = Vec::new();
    let mut i: usize = 0;
    while i < table.len()
        invariant
            i <= table@.len(),
            labels == table@.map_values(|e: CommandEntry| e.label@),
            q@ == lowercase(query@),
            first@.map_values(|k: usize| k as int) == hits(labels, query@, i as int, true),
            later@.map_values(|k: usize| k as int) == hits(labels, query@, i as int, false),
        decreases table@.len() - i,
    {
        let l = to_lowercase(table[i].label.as_str());
        assert(l@ == lowercase(labels[i as int]));
        let ghost f0 = first@;
        let ghost l0 = later@;
        if begins_with(l.as_str(), q.as_str()) {
            first.push(i);
            assert(first@.map_values(|k: usize| k as int) =~= f0.map_values(|k: usize| k as int).push(i as int));
        } else if occurs_in(l.as_str(), q.as_str()) {
            later.push(i);
            assert(later@.map_values(|k: usize| k as int) =~= l0.map_values(|k: usize| k as int).push(i as int));
        }
        i = i + 1;
        assert(first@.map_values(|k: usize| k as int) =~= hits(labels, query@, i as int, true));
        assert(later@.map_values(|k: usize| k as int) =~= hits(labels, query@, i as int, false));
    }
    let ghost f1 = first@;
    let mut j: usize = 0;
    while j < later.len()
        invariant
            j <= later@.len(),
            first@ == f1 + later@.take(j as int),
        decreases later@.len() - j,
    {
        first.push(later[j]);
        j = j + 1;
        assert(first@ =~= f1 + later@.take(j as int));
    }
    assert(later@.take(later@.len() as int) =~= later@);
    assert((f1 + later@).map_values(|k: usize| k as int) =~= f1.map_values(|k: usize| k as int)
        + later@.map_values(|k: usize| k as int));
    first
}


/// Lines of commands the palette shows, and where its box sits.
pub const PALETTE_ROWS: usize = 12;
pub const PALETTE_X: u16 = 10;
pub const PALETTE_Y: u16 = 2;
pub const PALETTE_W: u16 = 48;

/// The command palette: the query typed so far and the highlighted line.
pub struct Palette {
    pub query: Vec<char>,
    pub sel: usize,
}

#[verifier::ext_equal]
pub struct PaletteView {
    pub query: Seq<char>,
    pub sel: int,
}

impl View for Palette {
    type V = PaletteView;

    open spec fn view(&self) -> PaletteView {
        PaletteView { query: self.query@, sel: self.sel as int }
    }
}

/// Where the palette is after a step: open, closed, or closed on the
/// `i`-th line shown.
#[derive(Clone, Copy, Debug, PartialEq, Eq, Structural)]
pub enum PaletteStep {
    Stay,
    Close,
    Pick(usize),
}

/// The highlight kept on one of the `n` lines shown.
pub open spec fn clamped(p: PaletteView, n: int) -> PaletteView {
    if p.sel >= n {
        PaletteView { sel: if n >= 1 { n - 1 } else { 0 }, ..p }
    } else {
        p
    }
}

/// The highlight one line down, within the lines shown.
pub open spec fn sel_down(p: PaletteView, n: int) -> PaletteView {
    let shown = if n < PALETTE_ROWS { n } else { PALETTE_ROWS as int };
    if p.sel + 1 < shown {
        PaletteView { sel: p.sel + 1, ..p }
    } else {
        p
    }
}

/// The highlight one line up.
pub open spec fn sel_up(p: PaletteView) -> PaletteView {
    PaletteView { sel: if p.sel >= 1 { p.sel - 1 } else { 0 }, ..p }
}

/// What a key does in the palette while it shows `n` lines: Esc and
/// Ctrl-K close it, Enter picks the highlighted line (and closes when
/// there is none), Up/Down move the highlight, Backspace and chars edit
/// the query and go back to the first line.
pub open spec fn palette_key(p0: PaletteView, n: int, k: KeyPress) -> (PaletteView, PaletteStep) {
    let p = clamped(p0, n);
    match k.key {
        Key::Esc => (p, PaletteStep::Close),
        Key::Enter => if p.sel < n {
            (p, PaletteStep::Pick(p.sel as usize))
        } else {
            (p, PaletteStep::Close)
        },
        Key::Up => (sel_up(p), PaletteStep::Stay),
        Key::Down => (sel_down(p, n), PaletteStep::Stay),
        Key::Backspace => (
            PaletteView {
                query: if p.query.len() > 0 { p.query.drop_last() } else { p.query },
                sel: 0,
            },
            PaletteStep::Stay,
        ),
        Key::Char(c) => if c == 'k' && k.ctrl {
            (p, PaletteStep::Close)
        } else if !k.ctrl {
            (PaletteView { query: p.query.push(c), sel: 0 }, PaletteStep::Stay)
        } else {
            (p, PaletteStep::Stay)
        },
        _ => (p, PaletteStep::Stay),
    }
}

/// What a mouse event at screen cell (col, row) does in the palette: a
/// click on a shown line picks it, a click outside the box closes it, and
/// the wheel moves the highlight.
pub open spec fn palette_mouse(p0: PaletteView, n: int, kind: MouseKind, col: int, row: int) -> (PaletteView, PaletteStep) {
    let p = clamped(p0, n);
    let top = PALETTE_Y + 2;
    let in_box = PALETTE_X <= col < PALETTE_X + PALETTE_W + 2 && PALETTE_Y <= row <= PALETTE_Y + 2 + PALETTE_ROWS;
    match kind {
        MouseKind::LeftDown => if top <= row < top + PALETTE_ROWS && in_box {
            if row - top < n {
                (p, PaletteStep::Pick((row - top) as usize))
            } else {
                (p, PaletteStep::Stay)
            }
        } else if !in_box {
            (p, PaletteStep::Close)
        } else {
            (p, PaletteStep::Stay)
        },
        MouseKind::ScrollUp => (sel_up(p), PaletteStep::Stay),
        MouseKind::ScrollDown => (sel_down(p, n), PaletteStep::Stay),
        _ => (p, PaletteStep::Stay),
    }
}

impl Palette {
    /// An empty query on the first line.
    pub fn new() -> (p: Palette)
        ensures
            p@ == (PaletteView { query: Seq::empty(), sel: 0 }),
    {
        let p = Palette { query: Vec::new(), sel: 0 };
        assert(p@ =~= (PaletteView { query: Seq::empty(), sel: 0 }));
        p
    }

    /// The query as text.
    pub fn query_text(&self) -> (s: String)
        ensures
            s@ == self.query@,
    {
        text_of(&self.query)
    }

    /// Keep the highlight on one of the `n` lines shown (see `clamped`).
    pub fn clamp(&mut self, n: usize)
        ensures
            final(self)@ == clamped(old(self)@, n as int),
    {
        if self.sel >= n {
            self.sel = if n >= 1 { n - 1 } else { 0 };
        }
    }

    fn down(&mut self, n: usize)
        ensures
            final(self)@ == sel_down(old(self)@, n as int),
    {
        let shown = if n < PALETTE_ROWS { n } else { PALETTE_ROWS };
        if self.sel < shown && self.sel + 1 < shown {
            self.sel = self.sel + 1;
        }
    }

    /// Handle a key while `n` lines are shown (see `palette_key`).
    pub fn key(&mut self, n: usize, k: KeyPress) -> (r: PaletteStep)
        ensures
            (final(self)@, r) == palette_key(old(self)@, n as int, k),
    {
        self.clamp(n);
        let ghost p = self@;
        match k.key {
            Key::Esc => PaletteStep::Close,
            Key::Enter => {
                if self.sel < n {
                    PaletteStep::Pick(self.sel)
                } else {
                    PaletteStep::Close
                }
            },
            Key::Up => {
                self.sel = if self.sel >= 1 { self.sel - 1 } else { 0 };
                PaletteStep::Stay
            },
            Key::Down => {
                self.down(n);
                PaletteStep::Stay
            },
            Key::Backspace => {
                self.query.pop();
                self.sel = 0;
                assert(self@ =~= palette_key(old(self)@, n as int, k).0);
                PaletteStep::Stay
            },
            Key::Char(c) => {
                if c == 'k' && k.ctrl {
                    PaletteStep::Close
                } else if !k.ctrl {
                    self.query.push(c);
                    self.sel = 0;
                    PaletteStep::Stay
                } else {
                    PaletteStep::Stay
                }
            },
            _ => PaletteStep::Stay,
        }
    }

    /// Handle a mouse event at screen cell (col, row) while `n` lines are
    /// shown (see `palette_mouse`).
    pub fn mouse(&mut self, n: usize, kind: MouseKind, col: u16, row: u16) -> (r: PaletteStep)
        ensures
            (final(self)@, r) == palette_mouse(old(self)@, n as int, kind, col as int, row as int),
    {
        self.clamp(n);
        let top: u16 = PALETTE_Y + 2;
        let in_box = PALETTE_X <= col && col < PALETTE_X + PALETTE_W + 2 && PALETTE_Y <= row && row
            <= PALETTE_Y + 2 + 12;
        match kind {
            MouseKind::LeftDown => {
                if top <= row && row < top + 12 && in_box {
                    if ((row - top) as usize) < n {
                        PaletteStep::Pick((row - top) as usize)
                    } else {
                        PaletteStep::Stay
                    }
                } else if !in_box {
                    PaletteStep::Close
                } else {
                    PaletteStep::Stay
                }
            },
            MouseKind::ScrollUp => {
                self.sel = if self.sel >= 1 { self.sel - 1 } else { 0 };
                PaletteStep::Stay
            },
            MouseKind::ScrollDown => {
                self.down(n);
                PaletteStep::Stay
            },
            _ => PaletteStep::Stay,
        }
    }
}

/// Where the character picker is after a step: open, closed, or closed
/// on typing a char.
#[derive(Clone, Copy, Debug, PartialEq, Eq, Structural)]
pub enum PickStep {
    Stay,
    Close,
    Insert(char),
}

/// Where the picker's grid of 8 rows of 32 glyphs starts on screen.
pub const PICKER_X: u16 = 7;
pub const PICKER_Y: u16 = 3;

/// What a key does in the character picker on byte `sel`: the arrows move
/// through the 256 glyphs (wrapping around), Enter types the glyph, Esc
/// closes.
pub open spec fn picker_key(sel: u8, k: KeyPress) -> (u8, PickStep) {
    match k.key {
        Key::Esc => (sel, PickStep::Close),
        Key::Enter => (sel, PickStep::Insert(glyph(sel))),
        Key::Left => (((sel + 255) % 256) as u8, PickStep::Stay),
        Key::Right => (((sel + 1) % 256) as u8, PickStep::Stay),
        Key::Up => (((sel + 224) % 256) as u8, PickStep::Stay),
        Key::Down => (((sel + 32) % 256) as u8, PickStep::Stay),
        _ => (sel, PickStep::Stay),
    }
}

/// What a left click at screen cell (col, row) does in the picker: a
/// click on the grid selects that glyph, a second click on the selected
/// glyph types it, a click elsewhere closes.
pub open spec fn picker_click(sel: u8, col: int, row: int) -> (u8, PickStep) {
    if PICKER_X <= col < PICKER_X + 32 && PICKER_Y <= row < PICKER_Y + 8 {
        let b = (row - PICKER_Y) * 32 + (col - PICKER_X);
        if b == sel {
            (sel, PickStep::Insert(glyph(sel)))
        } else {
            (b as u8, PickStep::Stay)
        }
    } else {
        (sel, PickStep::Close)
    }
}

/// The character picker's first selection: the light shade.
pub const PICKER_START: u8 = 0xB0;

/// Handle a key in the picker (see `picker_key`).
pub fn picker_key_step(sel: u8, k: KeyPress) -> (r: (u8, PickStep))
    ensures
        r == picker_key(sel, k),
{
    match k.key {
        Key::Esc => (sel, PickStep::Close),
        Key::Enter => (sel, PickStep::Insert(byte_to_char(sel))),
        Key::Left => (sel.wrapping_sub(1), PickStep::Stay),
        Key::Right => (sel.wrapping_add(1), PickStep::Stay),
        Key::Up => (sel.wrapping_sub(32), PickStep::Stay),
        Key::Down => (sel.wrapping_add(32), PickStep::Stay),
        _ => (sel, PickStep::Stay),
    }
}

/// Handle a left click in the picker (see `picker_click`).
pub fn picker_click_step(sel: u8, col: u16, row: u16) -> (r: (u8, PickStep))
    ensures
        r == picker_click(sel, col as int, row as int),
{
    if PICKER_X <= col && col < PICKER_X + 32 && PICKER_Y <= row && row < PICKER_Y + 8 {
        let b = ((row - PICKER_Y) * 32 + (col - PICKER_X)) as u8;
        if b == sel {
            (sel, PickStep::Insert(byte_to_char(sel)))
        } else {
            (b, PickStep::Stay)
        }
    } else {
        (sel, PickStep::Close)
    }
}

/// What a key does in the quick color palette: Up/Down step the
/// foreground through 16 colors, Right/Left the background through 8,
/// Esc and Enter close it (the last field).
pub open spec fn colors_key(fg: u8, bg: u8, k: KeyPress) -> (u8, u8, bool) {
    match k.key {
        Key::Up => (((fg + 1) % 16) as u8, bg, false),
        Key::Down => (((fg + 15) % 16) as u8, bg, false),
        Key::Right => (fg, ((bg + 1) % 8) as u8, false),
        Key::Left => (fg, ((bg + 7) % 8) as u8, false),
        Key::Esc | Key::Enter => (fg, bg, true),
        _ => (fg, bg, false),
    }
}

/// What a left click at screen cell (col, row) does in the quick palette:
/// the swatches (two cells each) on rows 2 and 3 pick the foreground and
/// the background; a click below or above the palette's rows closes it.
pub open spec fn colors_click(fg: u8, bg: u8, col: int, row: int) -> (u8, u8, bool) {
    if row == 2 && 4 <= col < 36 {
        (((col - 4) / 2) as u8, bg, false)
    } else if row == 3 && 4 <= col < 20 {
        (fg, ((col - 4) / 2) as u8, false)
    } else if !(1 <= row <= 3) {
        (fg, bg, true)
    } else {
        (fg, bg, false)
    }
}

/// Handle a key in the quick palette (see `colors_key`).
pub fn colors_key_step(fg: u8, bg: u8, k: KeyPress) -> (r: (u8, u8, bool))
    ensures
        r == colors_key(fg, bg, k),
{
    match k.key {
        Key::Up => (((fg as u16 + 1) % 16) as u8, bg, false),
        Key::Down => (((fg as u16 + 15) % 16) as u8, bg, false),
        Key::Right => (fg, ((bg as u16 + 1) % 8) as u8, false),
        Key::Left => (fg, ((bg as u16 + 7) % 8) as u8, false),
        Key::Esc | Key::Enter => (fg, bg, true),
        _ => (fg, bg, false),
    }
}

/// Handle a left click in the quick palette (see `colors_click`).
pub fn colors_click_step(fg: u8, bg: u8, col: u16, row: u16) -> (r: (u8, u8, bool))
    ensures
        r == colors_click(fg, bg, col as int, row as int),
{
    if row == 2 && 4 <= col && col < 36 {
        (((col - 4) / 2) as u8, bg, false)
    } else if row == 3 && 4 <= col && col < 20 {
        (fg, ((col - 4) / 2) as u8, false)
    } else if !(1 <= row && row <= 3) {
        (fg, bg, true)
    } else {
        (fg, bg, false)
    }
}

/// What a key does to a one-line prompt holding `text`: Enter ends it
/// with the trimmed text (nothing when that is empty), Esc ends it with
/// nothing, Backspace deletes the last char, and a char without Ctrl is
/// appended. `None` means the prompt stays open with the new text.
pub open spec fn prompt_key(text: Seq<char>, k: KeyPress) -> (Seq<char>, Option<Option<Seq<char>>>) {
    match k.key {
        Key::Enter => (text, Some(if trimmed(text).len() == 0 { None } else { Some(trimmed(text)) })),
        Key::Esc => (text, Some(None)),
        Key::Backspace => (if text.len() > 0 { text.drop_last() } else { text }, None),
        Key::Char(c) => if !k.ctrl {
            (text.push(c), None)
        } else {
            (text, None)
        },
        _ => (text, None),
    }
}

/// Handle a key in a prompt (see `prompt_key`): `Some` ends it.
pub fn prompt_key_step(text: &mut Vec<char>, k: KeyPress) -> (r: Option<Option<String>>)
    ensures
        final(text)@ == prompt_key(old(text)@, k).0,
        match (r, prompt_key(old(text)@, k).1) {
            (None, None) => true,
            (Some(None), Some(None)) => true,
            (Some(Some(s)), Some(Some(t))) => s@ == t,
            _ => false,
        },
{
    match k.key {
        Key::Enter => {
            let t = trim_chars(text);
            if t.as_str().unicode_len() == 0 {
                Some(None)
            } else {
                Some(Some(t))
            }
        },
        Key::Esc => Some(None),
        Key::Backspace => {
            text.pop();
            None
        },
        Key::Char(c) => {
            if !k.ctrl {
                text.push(c);
            }
            None
        },
        _ => None,
    }
}

/// The answer to a yes/no question: y or Y is yes; n, N and Esc are no;
/// any other key keeps asking.
pub open spec fn yes_no(k: KeyPress) -> Option<bool> {
    match k.key {
        Key::Char(c) => if c == 'y' || c == 'Y' {
            Some(true)
        } else if c == 'n' || c == 'N' {
            Some(false)
        } else {
            None
        },
        Key::Esc => Some(false),
        _ => None,
    }
}

pub fn yes_no_key(k: KeyPress) -> (r: Option<bool>)
    ensures
        r == yes_no(k),
{
    match k.key {
        Key::Char(c) => {
            if c == 'y' || c == 'Y' {
                Some(true)
            } else if c == 'n' || c == 'N' {
                Some(false)
            } else {
                None
            }
        },
        Key::Esc => Some(false),
        _ => None,
    }
}

/// The answer to "save before exiting?".
#[derive(Clone, Copy, Debug, PartialEq, Eq, Structural)]
pub enum ExitChoice {
    /// Save first, then exit if the save went through.
    Save,
    /// Exit without saving.
    Discard,
    /// Do not exit.
    Stay,
}

/// y or Y saves, n or N discards, Esc stays; any other key keeps asking.
pub open spec fn exit_answer(k: KeyPress) -> Option<ExitChoice> {
    match k.key {
        Key::Char(c) => if c == 'y' || c == 'Y' {
            Some(ExitChoice::Save)
        } else if c == 'n' || c == 'N' {
            Some(ExitChoice::Discard)
        } else {
            None
        },
        Key::Esc => Some(ExitChoice::Stay),
        _ => None,
    }
}

pub fn exit_key(k: KeyPress) -> (r: Option<ExitChoice>)
    ensures
        r == exit_answer(k),
{
    match k.key {
        Key::Char(c) => {
            if c == 'y' || c == 'Y' {
                Some(ExitChoice::Save)
            } else if c == 'n' || c == 'N' {
                Some(ExitChoice::Discard)
            } else {
                None
            }
        },
        Key::Esc => Some(ExitChoice::Stay),
        _ => None,
    }
}

} // verus!
