//! Reading a problem from its text. The text is read one character at a time: lines are
//! separated by line breaks; the active lines come first and, after an empty line, the
//! passive lines. A line is a list of parts separated by blanks; a part is a list of labels
//! (one character each, or a text in parentheses) followed by `^n` for its multiplicity.
//! Labels are numbered in the order in which their texts first occur.
use vstd::prelude::*;
use crate::labels::{Label, sorted_strict, views, sorted_lex, sort_lex, sorted_set, lemma_sorted_set_eq, lex_order, lemma_sorted_lex_is_sort};
use crate::line::{Line, positions, line_wf, positions_wf, copy_labels};
use crate::constraint::{Constraint, Degree, lines_view, labels_in, pos_has};
use crate::problem::{Problem, mapping_labels};
use crate::text::{string_of, chars_of, text_eq, text_views};

verus! {

/// Whether the character separates parts.
pub open spec fn is_blank(c: char) -> bool {
    c == ' ' || c == '\t' || c == '\r'
}

fn is_blank_exec(c: char) -> (r: bool)
    ensures
        r == is_blank(c),
{
    c == ' ' || c == '\t' || c == '\r'
}

/// Whether the character is a decimal digit.
pub open spec fn is_digit(c: char) -> bool {
    '0' <= c && c <= '9'
}

/// The value of a decimal digit.
pub open spec fn digit_of(c: char) -> nat {
    ((c as int) - ('0' as int)) as nat
}

/// The strictly increasing sequence of the labels of `g`.
pub open spec fn set_seq(g: Seq<Label>) -> Seq<Label> {
    choose|q: Seq<Label>| sorted_strict(q) && q.to_set() == g.to_set()
}

/// All labels in the positions are below `n`.
pub open spec fn labels_below(pos: Seq<Seq<Label>>, n: int) -> bool {
    forall|i: int, j: int| 0 <= i < pos.len() && 0 <= j < pos[i].len() ==> (#[trigger] pos[i][j]) < n
}

/// The index of the first occurrence of `t` in `texts` from `i` on, or the length of
/// `texts` when there is none.
pub open spec fn find_text(texts: Seq<Seq<char>>, t: Seq<char>, i: int) -> int
    decreases texts.len() - i,
{
    if i < 0 || i >= texts.len() {
        texts.len() as int
    } else if texts[i] == t {
        i
    } else {
        find_text(texts, t, i + 1)
    }
}

/// The label of the text `t`: that of its first occurrence, or a new label after the others.
pub open spec fn intern(texts: Seq<Seq<char>>, t: Seq<char>) -> Result<(Label, Seq<Seq<char>>), &'static str> {
    let k = find_text(texts, t, 0);
    if k < texts.len() {
        Ok((k as Label, texts))
    } else if texts.len() >= u32::MAX {
        Err("too many labels")
    } else {
        Ok((texts.len() as Label, texts.push(t)))
    }
}

/// How far the reading of a part has come.
pub enum PartState {
    /// Between parts.
    Idle,
    /// Reading the labels of a group.
    Labels(Seq<Label>),
    /// Reading a label in parentheses: the group so far and the label's characters so far.
    Paren(Seq<Label>, Seq<char>),
    /// Reading the multiplicity after `^`: the group, the value so far, and whether a digit
    /// was read.
    Count(Seq<Label>, nat, bool),
}

/// What has been read of a text: the label texts, the positions of the active and passive
/// lines (each sorted), whether the active lines have begun (`phase` 1) or ended (`phase` 2),
/// the positions of the current line, the current part, and whether the current line has
/// a character other than a blank.
pub struct Reader {
    pub texts: Seq<Seq<char>>,
    pub active: Seq<Seq<Seq<Label>>>,
    pub passive: Seq<Seq<Seq<Label>>>,
    pub phase: nat,
    pub pos: Seq<Seq<Label>>,
    pub part: PartState,
    pub nonblank: bool,
}

/// Nothing read yet.
pub open spec fn initial_reader() -> Reader {
    Reader {
        texts: Seq::empty(),
        active: Seq::empty(),
        passive: Seq::empty(),
        phase: 0,
        pos: Seq::empty(),
        part: PartState::Idle,
        nonblank: false,
    }
}

/// The part with labels `g` is read: `n` positions with the set of `g` join the line.
pub open spec fn finish_part(r: Reader, g: Seq<Label>, n: nat) -> Reader {
    Reader { pos: r.pos + Seq::new(n, |k: int| set_seq(g)), part: PartState::Idle, ..r }
}

/// The label with text `t` joins the group `g`.
pub open spec fn label_done(r: Reader, g: Seq<Label>, t: Seq<char>) -> Result<Reader, &'static str> {
    match intern(r.texts, t) {
        Ok((l, ts)) => Ok(Reader { texts: ts, part: PartState::Labels(g.push(l)), ..r }),
        Err(e) => Err(e),
    }
}

/// The character `c` comes where a label or the `^` after a group is expected.
pub open spec fn start_label(r: Reader, g: Seq<Label>, c: char) -> Result<Reader, &'static str> {
    if c == '^' {
        if g.len() == 0 {
            Err("expected a label")
        } else {
            Ok(Reader { part: PartState::Count(g, 0, false), ..r })
        }
    } else if c == '(' {
        Ok(Reader { part: PartState::Paren(g, seq!['(']), ..r })
    } else if c == ')' || c == '*' {
        Err("unexpected character")
    } else {
        label_done(r, g, seq![c])
    }
}

/// Reads a character other than a line break.
pub open spec fn read_char(r: Reader, c: char) -> Result<Reader, &'static str> {
    let r1 = if is_blank(c) { r } else { Reader { nonblank: true, ..r } };
    match r.part {
        PartState::Idle => if is_blank(c) {
            Ok(r1)
        } else {
            start_label(r1, Seq::empty(), c)
        },
        PartState::Labels(g) => if is_blank(c) {
            Ok(finish_part(r1, g, 1))
        } else {
            start_label(r1, g, c)
        },
        PartState::Paren(g, t) => if c == ')' {
            label_done(r1, g, t.push(c))
        } else {
            Ok(Reader { part: PartState::Paren(g, t.push(c)), ..r1 })
        },
        PartState::Count(g, n, seen) => if is_digit(c) {
            if n > (usize::MAX - 9) / 10 {
                Err("the multiplicity is too large")
            } else {
                Ok(Reader { part: PartState::Count(g, n * 10 + digit_of(c), true), ..r1 })
            }
        } else if !seen || n == 0 {
            Err("expected a positive multiplicity")
        } else if is_blank(c) {
            Ok(finish_part(r1, g, n))
        } else {
            Err("unexpected character")
        },
    }
}

/// The current line ends with the part it holds: a blank line ends the active lines (once
/// they have begun); another line, sorted, joins the active lines, or the passive lines
/// once the active lines have ended, if it has the degree of the lines before it.
pub open spec fn close_line(r: Reader) -> Result<Reader, &'static str> {
    if !r.nonblank {
        Ok(Reader { phase: if r.phase == 1 { 2 } else { r.phase }, pos: Seq::empty(), ..r })
    } else if r.pos.len() == 0 {
        Err("empty line")
    } else {
        let line = r.pos.sort_by(lex_order());
        if r.phase == 2 {
            if r.passive.len() > 0 && r.passive[0].len() != line.len() {
                Err("the lines of a constraint have different degrees")
            } else {
                Ok(Reader { passive: r.passive.push(line), pos: Seq::empty(), nonblank: false, ..r })
            }
        } else {
            if r.active.len() > 0 && r.active[0].len() != line.len() {
                Err("the lines of a constraint have different degrees")
            } else {
                Ok(Reader { active: r.active.push(line), phase: 1, pos: Seq::empty(), nonblank: false, ..r })
            }
        }
    }
}

/// Reads a line break (or the end of the text): the current part ends, then the line.
pub open spec fn end_line(r: Reader) -> Result<Reader, &'static str> {
    match r.part {
        PartState::Idle => close_line(r),
        PartState::Labels(g) => close_line(finish_part(r, g, 1)),
        PartState::Paren(_, _) => Err("a parenthesis is not closed"),
        PartState::Count(g, n, seen) => if !seen || n == 0 {
            Err("expected a positive multiplicity")
        } else {
            close_line(finish_part(r, g, n))
        },
    }
}

/// What is read of the first `i` characters of `s`, or the first error.
pub open spec fn read_text(s: Seq<char>, i: int) -> Result<Reader, &'static str>
    decreases i,
{
    if i <= 0 {
        Ok(initial_reader())
    } else {
        match read_text(s, i - 1) {
            Err(e) => Err(e),
            Ok(r) => if s[i - 1] == '\n' {
                end_line(r)
            } else {
                read_char(r, s[i - 1])
            },
        }
    }
}

/// What is read of the whole text, with its last line ended, or the first error; both the
/// active and the passive lines must be there.
pub open spec fn parse_text(s: Seq<char>) -> Result<Reader, &'static str> {
    match read_text(s, s.len() as int) {
        Err(e) => Err(e),
        Ok(r) => match end_line(r) {
            Err(e) => Err(e),
            Ok(r2) => if r2.active.len() == 0 {
                Err("the active constraint has no line")
            } else if r2.passive.len() == 0 {
                Err("the passive constraint has no line")
            } else {
                Ok(r2)
            },
        },
    }
}

/// The first occurrence is found at or after `i`, and holds the text when it is inside.
proof fn lemma_find_text(texts: Seq<Seq<char>>, t: Seq<char>, i: int)
    requires
        0 <= i <= texts.len(),
    ensures
        i <= find_text(texts, t, i) <= texts.len(),
        find_text(texts, t, i) < texts.len() ==> texts[find_text(texts, t, i)] == t,
    decreases texts.len() - i,
{
    if i < texts.len() && texts[i] != t {
        lemma_find_text(texts, t, i + 1);
    }
}

/// An error in the first `i` characters stays the result of reading more of them.
proof fn lemma_read_text_err(s: Seq<char>, i: int, j: int)
    requires
        0 <= i <= j,
        read_text(s, i) is Err,
    ensures
        read_text(s, j) == read_text(s, i),
    decreases j - i,
{
    if i < j {
        lemma_read_text_err(s, i, j - 1);
    }
}

/// The label of the text `t`, added to the texts when it is new (see `intern`).
fn label_for(texts: &mut Vec<Vec<char>>, t: Vec<char>) -> (r: Result<Label, &'static str>)
    ensures
        match intern(text_views(old(texts)@), t@) {
            Ok((l, ts)) => r == Ok::<Label, &'static str>(l) && text_views(final(texts)@) == ts,
            Err(e) => r == Err::<Label, &'static str>(e),
        },
{
    let ghost tv = text_views(texts@);
    let mut i: usize = 0;
    while i < texts.len()
        invariant
            i <= texts.len(),
            tv == text_views(texts@),
            find_text(tv, t@, 0) == find_text(tv, t@, i as int),
        decreases texts.len() - i,
    {
        assert(tv[i as int] == texts@[i as int]@);
        if text_eq(&texts[i], &t) {
            return Ok(i as Label);
        }
        i = i + 1;
    }
    if texts.len() >= u32::MAX as usize {
        return Err("too many labels");
    }
    let l = texts.len() as Label;
    texts.push(t);
    assert(text_views(texts@) =~= tv.push(t@));
    Ok(l)
}

/// The positions of each line.
pub open spec fn lines_positions(v: Seq<Line>) -> Seq<Seq<Seq<Label>>> {
    v.map_values(|l: Line| positions(l@))
}

/// A line as reading gives it: well formed, of degree `d`, with consecutive parts of
/// different groups, and labels below `n`.
pub open spec fn parsed_line(l: Seq<crate::line::PartV>, d: int, n: int) -> bool {
    &&& line_wf(l)
    &&& positions(l).len() == d
    &&& forall|i: int| 0 <= i < l.len() - 1 ==> (#[trigger] l[i]).1 != l[i + 1].1
    &&& labels_below(positions(l), n)
}

/// The state of the reading of a text (see `Reader`); `mode` 0 to 3 stands for the four
/// kinds of `PartState`.
struct ReadState {
    texts: Vec<Vec<char>>,
    active: Vec<Line>,
    passive: Vec<Line>,
    active_degree: usize,
    passive_degree: usize,
    phase: u8,
    pos: Vec<Vec<Label>>,
    mode: u8,
    group: Vec<Label>,
    token: Vec<char>,
    count: usize,
    seen: bool,
    nonblank: bool,
}

impl ReadState {
    spec fn part_view(&self) -> PartState {
        if self.mode == 0 {
            PartState::Idle
        } else if self.mode == 1 {
            PartState::Labels(self.group@)
        } else if self.mode == 2 {
            PartState::Paren(self.group@, self.token@)
        } else {
            PartState::Count(self.group@, self.count as nat, self.seen)
        }
    }

    spec fn reader(&self) -> Reader {
        Reader {
            texts: text_views(self.texts@),
            active: lines_positions(self.active@),
            passive: lines_positions(self.passive@),
            phase: self.phase as nat,
            pos: views(self.pos@),
            part: self.part_view(),
            nonblank: self.nonblank,
        }
    }

    spec fn inv(&self) -> bool {
        let n = self.texts@.len() as int;
        &&& self.mode <= 3
        &&& self.phase <= 2
        &&& n <= u32::MAX
        &&& self.mode == 0 ==> self.group@.len() == 0
        &&& (self.active_degree == 0 <==> self.active@.len() == 0)
        &&& (self.passive_degree == 0 <==> self.passive@.len() == 0)
        &&& forall|k: int| 0 <= k < self.active@.len() ==> parsed_line(#[trigger] self.active@[k]@, self.active_degree as int, n)
        &&& forall|k: int| 0 <= k < self.passive@.len() ==> parsed_line(#[trigger] self.passive@[k]@, self.passive_degree as int, n)
        &&& positions_wf(views(self.pos@))
        &&& labels_below(views(self.pos@), n)
        &&& forall|k: int| 0 <= k < self.group@.len() ==> self.group@[k] < n
    }

    /// Nothing read yet.
    fn new() -> (r: ReadState)
        ensures
            r.inv(),
            r.reader() == initial_reader(),
    {
        let r = ReadState {
            texts: Vec::new(),
            active: Vec::new(),
            passive: Vec::new(),
            active_degree: 0,
            passive_degree: 0,
            phase: 0,
            pos: Vec::new(),
            mode: 0,
            group: Vec::new(),
            token: Vec::new(),
            count: 0,
            seen: false,
            nonblank: false,
        };
        assert(r.reader() =~= initial_reader()) by {
            assert(text_views(r.texts@) =~= Seq::<Seq<char>>::empty());
            assert(lines_positions(r.active@) =~= Seq::<Seq<Seq<Label>>>::empty());
            assert(lines_positions(r.passive@) =~= Seq::<Seq<Seq<Label>>>::empty());
            assert(views(r.pos@) =~= Seq::<Seq<Label>>::empty());
        }
        r
    }

    /// The current part, with `n` positions, joins the line (see `finish_part`).
    fn finish(&mut self, n: usize)
        requires
            old(self).inv(),
        ensures
            final(self).inv(),
            final(self).reader() == finish_part(old(self).reader(), old(self).group@, n as nat),
    {
        let g = sorted_set(&self.group);
        proof {
            assert(sorted_strict(g@) && g@.to_set() == self.group@.to_set());
            let q = set_seq(self.group@);
            assert(sorted_strict(q) && q.to_set() == self.group@.to_set());
            lemma_sorted_set_eq(q, g@);
            assert forall|k: int| 0 <= k < g@.len() implies g@[k] < self.texts@.len() by {
                assert(g@.to_set().contains(g@[k]));
                assert(self.group@.to_set().contains(g@[k]));
            }
        }
        let ghost p0 = views(self.pos@);
        let mut pos: Vec<Vec<Label>> = Vec::new();
        std::mem::swap(&mut pos, &mut self.pos);
        let mut c: usize = 0;
        while c < n
            invariant
                c <= n,
                sorted_strict(g@),
                g@ == set_seq(old(self).group@),
                forall|k: int| 0 <= k < g@.len() ==> g@[k] < old(self).texts@.len(),
                views(pos@) == p0 + Seq::new(c as nat, |k: int| g@),
                positions_wf(views(pos@)),
                labels_below(views(pos@), old(self).texts@.len() as int),
            decreases n - c,
        {
            let ghost pc = views(pos@);
            pos.push(copy_labels(&g));
            proof {
                assert(views(pos@) =~= pc.push(g@));
                assert(views(pos@) =~= p0 + Seq::new((c + 1) as nat, |k: int| g@));
            }
            c = c + 1;
        }
        self.pos = pos;
        self.mode = 0;
        self.group = Vec::new();
        proof {
            assert(Seq::new(n as nat, |k: int| g@) =~= Seq::new(n as nat, |k: int| set_seq(old(self).group@)));
            assert(self.reader() =~= finish_part(old(self).reader(), old(self).group@, n as nat));
        }
    }

    /// The label with text `t` joins the group (see `label_done`).
    fn add_label(&mut self, t: Vec<char>) -> (r: Result<(), &'static str>)
        requires
            old(self).inv(),
        ensures
            match label_done(old(self).reader(), old(self).group@, t@) {
                Ok(rd) => r is Ok && final(self).inv() && final(self).reader() == rd,
                Err(e) => r == Err::<(), &'static str>(e),
            },
    {
        let ghost r0 = self.reader();
        let ghost n0 = self.texts@.len() as int;
        let ghost tv0 = text_views(self.texts@);
        let ghost tt = t@;
        proof {
            lemma_find_text(tv0, tt, 0);
        }
        let res = label_for(&mut self.texts, t);
        let ghost n1 = self.texts@.len() as int;
        let l = match res {
            Ok(l) => l,
            Err(e) => {
                return Err(e);
            },
        };
        proof {
            let k = find_text(tv0, tt, 0);
            if k < tv0.len() {
                assert(intern(tv0, tt) == Ok::<(Label, Seq<Seq<char>>), &'static str>((k as Label, tv0)));
                assert(text_views(self.texts@) == tv0);
                assert(l == k as Label);
            } else {
                assert(tv0.len() < u32::MAX);
                assert(intern(tv0, tt) == Ok::<(Label, Seq<Seq<char>>), &'static str>((tv0.len() as Label, tv0.push(tt))));
                assert(text_views(self.texts@) == tv0.push(tt));
                assert(l == tv0.len() as Label);
            }
            assert(text_views(self.texts@).len() == self.texts@.len());
        }
        assert(l < n1 && n0 <= n1 && n1 <= u32::MAX);
        self.group.push(l);
        self.mode = 1;
        proof {
            assert forall|k: int| 0 <= k < self.active@.len() implies parsed_line(#[trigger] self.active@[k]@, self.active_degree as int, n1) by {
                assert(parsed_line(self.active@[k]@, self.active_degree as int, n0));
            }
            assert forall|k: int| 0 <= k < self.passive@.len() implies parsed_line(#[trigger] self.passive@[k]@, self.passive_degree as int, n1) by {
                assert(parsed_line(self.passive@[k]@, self.passive_degree as int, n0));
            }
            assert(self.reader() =~= label_done(r0, old(self).group@, t@)->Ok_0);
        }
        Ok(())
    }

    /// A character that comes where a label or the `^` after a group is expected (see
    /// `start_label`).
    fn start_label(&mut self, c: char) -> (r: Result<(), &'static str>)
        requires
            old(self).inv(),
            old(self).mode <= 1,
        ensures
            match start_label(old(self).reader(), old(self).group@, c) {
                Ok(rd) => r is Ok && final(self).inv() && final(self).reader() == rd,
                Err(e) => r == Err::<(), &'static str>(e),
            },
    {
        let ghost r0 = self.reader();
        if c == '^' {
            if self.group.len() == 0 {
                return Err("expected a label");
            }
            self.mode = 3;
            self.count = 0;
            self.seen = false;
            assert(self.reader() =~= start_label(r0, old(self).group@, c)->Ok_0);
            Ok(())
        } else if c == '(' {
            let mut t: Vec<char> = Vec::new();
            t.push('(');
            self.token = t;
            self.mode = 2;
            assert(self.token@ =~= seq!['(']);
            assert(self.reader() =~= start_label(r0, old(self).group@, c)->Ok_0);
            Ok(())
        } else if c == ')' || c == '*' {
            Err("unexpected character")
        } else {
            let mut t: Vec<char> = Vec::new();
            t.push(c);
            assert(t@ =~= seq![c]);
            self.add_label(t)
        }
    }

    /// Reads a character other than a line break (see `read_char`).
    fn read_char(&mut self, c: char) -> (r: Result<(), &'static str>)
        requires
            old(self).inv(),
        ensures
            match read_char(old(self).reader(), c) {
                Ok(rd) => r is Ok && final(self).inv() && final(self).reader() == rd,
                Err(e) => r == Err::<(), &'static str>(e),
            },
    {
        let ghost r0 = self.reader();
        let blank = is_blank_exec(c);
        if !blank {
            self.nonblank = true;
        }
        let ghost r1 = self.reader();
        assert(r1 =~= (if is_blank(c) { r0 } else { Reader { nonblank: true, ..r0 } }));
        assert(self.mode == 0 ==> self.group@ =~= Seq::<Label>::empty());
        if self.mode == 0 || self.mode == 1 {
            if blank {
                if self.mode == 1 {
                    self.finish(1);
                }
                return Ok(());
            }
            return self.start_label(c);
        } else if self.mode == 2 {
            self.token.push(c);
            if c == ')' {
                let mut t: Vec<char> = Vec::new();
                std::mem::swap(&mut t, &mut self.token);
                return self.add_label(t);
            }
            assert(self.reader() =~= read_char(r0, c)->Ok_0);
            return Ok(());
        } else {
            if '0' <= c && c <= '9' {
                if self.count > (usize::MAX - 9) / 10 {
                    return Err("the multiplicity is too large");
                }
                let d = (c as u32 - '0' as u32) as usize;
                assert(d == digit_of(c));
                self.count = self.count * 10 + d;
                self.seen = true;
                assert(self.reader() =~= read_char(r0, c)->Ok_0);
                return Ok(());
            }
            if !self.seen || self.count == 0 {
                return Err("expected a positive multiplicity");
            }
            if blank {
                let n = self.count;
                self.finish(n);
                return Ok(());
            }
            Err("unexpected character")
        }
    }

    /// The current line ends (see `close_line`).
    fn close_line(&mut self) -> (r: Result<(), &'static str>)
        requires
            old(self).inv(),
            old(self).mode == 0,
        ensures
            match close_line(old(self).reader()) {
                Ok(rd) => r is Ok && final(self).inv() && final(self).reader() == rd,
                Err(e) => r == Err::<(), &'static str>(e),
            },
    {
        let ghost r0 = self.reader();
        let ghost n = self.texts@.len() as int;
        if !self.nonblank {
            if self.phase == 1 {
                self.phase = 2;
            }
            self.pos = Vec::new();
            assert(views(self.pos@) =~= Seq::<Seq<Label>>::empty());
            assert(self.reader() =~= close_line(r0)->Ok_0);
            return Ok(());
        }
        if self.pos.len() == 0 {
            return Err("empty line");
        }
        let mut pos: Vec<Vec<Label>> = Vec::new();
        std::mem::swap(&mut pos, &mut self.pos);
        let ghost pv = views(pos@);
        let sorted = sort_lex(pos);
        let ghost sv = views(sorted@);
        proof {
            lemma_sorted_lex_is_sort(sv, pv);
            assert forall|k: int| 0 <= k < sv.len() implies sorted_strict(#[trigger] sv[k]) by {
                assert(pv.contains(sv[k]));
            }
            assert forall|a: int, b: int| 0 <= a < sv.len() && 0 <= b < sv[a].len() implies (#[trigger] sv[a][b]) < n by {
                assert(pv.contains(sv[a]));
                let k = choose|k: int| 0 <= k < pv.len() && pv[k] == sv[a];
                assert(pv[k][b] < n);
            }
            assert(sv.len() == pv.len()) by {
                vstd::seq_lib::to_multiset_len(sv);
                vstd::seq_lib::to_multiset_len(pv);
            }
        }
        let d = sorted.len();
        let line = Line::from_sorted_positions(&sorted);
        assert(parsed_line(line@, d as int, n));
        if self.phase == 2 {
            if self.passive_degree != 0 && self.passive_degree != d {
                assert(parsed_line(self.passive@[0]@, self.passive_degree as int, n));
                return Err("the lines of a constraint have different degrees");
            }
            proof {
                if self.passive@.len() > 0 {
                    assert(parsed_line(self.passive@[0]@, self.passive_degree as int, n));
                }
            }
            self.passive_degree = d;
            let ghost l0 = lines_positions(self.passive@);
            self.passive.push(line);
            assert(lines_positions(self.passive@) =~= l0.push(positions(line@)));
        } else {
            if self.active_degree != 0 && self.active_degree != d {
                assert(parsed_line(self.active@[0]@, self.active_degree as int, n));
                return Err("the lines of a constraint have different degrees");
            }
            proof {
                if self.active@.len() > 0 {
                    assert(parsed_line(self.active@[0]@, self.active_degree as int, n));
                }
            }
            self.active_degree = d;
            let ghost l0 = lines_positions(self.active@);
            self.active.push(line);
            assert(lines_positions(self.active@) =~= l0.push(positions(line@)));
            self.phase = 1;
        }
        self.nonblank = false;
        proof {
            assert(views(self.pos@) =~= Seq::<Seq<Label>>::empty());
            assert(self.reader() =~= close_line(r0)->Ok_0);
        }
        Ok(())
    }

    /// Reads a line break or the end of the text (see `end_line`).
    fn end_line(&mut self) -> (r: Result<(), &'static str>)
        requires
            old(self).inv(),
        ensures
            match end_line(old(self).reader()) {
                Ok(rd) => r is Ok && final(self).inv() && final(self).reader() == rd,
                Err(e) => r == Err::<(), &'static str>(e),
            },
    {
        if self.mode == 2 {
            return Err("a parenthesis is not closed");
        }
        if self.mode == 1 {
            self.finish(1);
        } else if self.mode == 3 {
            if !self.seen || self.count == 0 {
                return Err("expected a positive multiplicity");
            }
            let n = self.count;
            self.finish(n);
        }
        self.close_line()
    }
}

/// The problem `p` is what reading gave as `rd`: the texts numbered in order, the lines with
/// the read positions, each in normal form (consecutive parts with different groups), the
/// degrees of the first lines, and nothing computed yet.
pub open spec fn read_as(p: Problem, rd: Reader) -> bool {
    &&& p.mapping_label_text@.len() == rd.texts.len()
    &&& forall|i: int| 0 <= i < rd.texts.len() ==> (#[trigger] p.mapping_label_text@[i]).0 == i
        && p.mapping_label_text@[i].1@ == rd.texts[i]
    &&& lines_positions(p.active.lines@) == rd.active
    &&& lines_positions(p.passive.lines@) == rd.passive
    &&& forall|k: int, i: int| 0 <= k < p.active.lines@.len() && 0 <= i < p.active.lines@[k]@.len() - 1
        ==> (#[trigger] p.active.lines@[k]@[i]).1 != p.active.lines@[k]@[i + 1].1
    &&& forall|k: int, i: int| 0 <= k < p.passive.lines@.len() && 0 <= i < p.passive.lines@[k]@.len() - 1
        ==> (#[trigger] p.passive.lines@[k]@[i]).1 != p.passive.lines@[k]@[i + 1].1
    &&& p.active.degree == Degree::Finite(rd.active[0].len() as usize)
    &&& p.passive.degree == Degree::Finite(rd.passive[0].len() as usize)
    &&& !p.active.is_maximized
    &&& !p.passive.is_maximized
    &&& p.mapping_label_oldlabels is None
    &&& p.trivial_sets is None
    &&& p.diagram_indirect is None
    &&& p.diagram_direct is None
    &&& p.fixpoint_diagram is None
}

impl Problem {
    /// Reads a problem from its text (see `parse_text`): the texts of the labels in the order
    /// in which they first occur, and the active and passive lines in normal form. Any error
    /// is the first one that reading meets.
    pub fn from_string(s: &str) -> (r: Result<Problem, &'static str>)
        ensures
            match parse_text(s@) {
                Ok(rd) => r matches Ok(p) && p.wf() && p.texts_cover() && read_as(p, rd),
                Err(e) => r == Err::<Problem, &'static str>(e),
            },
    {
        let chars = chars_of(s);
        let mut st = ReadState::new();
        let mut i: usize = 0;
        while i < chars.len()
            invariant
                i <= chars.len(),
                chars@ == s@,
                st.inv(),
                read_text(s@, i as int) == Ok::<Reader, &'static str>(st.reader()),
            decreases chars.len() - i,
        {
            let c = chars[i];
            let res = if c == '\n' {
                st.end_line()
            } else {
                st.read_char(c)
            };
            match res {
                Ok(()) => {},
                Err(e) => {
                    proof {
                        assert(read_text(s@, i + 1) == Err::<Reader, &'static str>(e));
                        lemma_read_text_err(s@, i + 1, s@.len() as int);
                    }
                    return Err(e);
                },
            }
            i = i + 1;
        }
        match st.end_line() {
            Ok(()) => {},
            Err(e) => {
                return Err(e);
            },
        }
        if st.active.len() == 0 {
            return Err("the active constraint has no line");
        }
        if st.passive.len() == 0 {
            return Err("the passive constraint has no line");
        }
        let ghost rd = st.reader();
        let ghost n = st.texts@.len() as int;
        let mut mapping: Vec<(Label, String)> = Vec::new();
        let mut k: usize = 0;
        while k < st.texts.len()
            invariant
                k <= st.texts.len(),
                st.texts@.len() <= u32::MAX,
                rd == st.reader(),
                mapping@.len() == k,
                forall|j: int| 0 <= j < k ==> (#[trigger] mapping@[j]).0 == j && mapping@[j].1@ == rd.texts[j],
            decreases st.texts.len() - k,
        {
            let t = string_of(&st.texts[k]);
            assert(rd.texts[k as int] == st.texts@[k as int]@);
            mapping.push((k as Label, t));
            k = k + 1;
        }
        let ad = st.active_degree;
        let pd = st.passive_degree;
        proof {
            assert(parsed_line(st.active@[0]@, ad as int, n));
            assert(parsed_line(st.passive@[0]@, pd as int, n));
            assert(lines_positions(st.active@)[0] == positions(st.active@[0]@));
            assert(lines_positions(st.passive@)[0] == positions(st.passive@[0]@));
        }
        let p = Problem {
            active: Constraint { lines: st.active, is_maximized: false, degree: Degree::Finite(ad) },
            passive: Constraint { lines: st.passive, is_maximized: false, degree: Degree::Finite(pd) },
            mapping_label_text: mapping,
            mapping_label_oldlabels: None,
            trivial_sets: None,
            diagram_indirect: None,
            diagram_direct: None,
            fixpoint_diagram: None,
        };
        proof {
            let ml = mapping_labels(p.mapping_label_text@);
            assert(ml.len() == n);
            assert forall|a: int| 0 <= a < ml.len() implies ml[a] == a by {
                assert(p.mapping_label_text@[a].0 == a);
            }
            assert forall|a: int, b: int| 0 <= a < b < ml.len() implies ml[a] < ml[b] by {
                assert(ml[a] == a && ml[b] == b);
            }
            assert forall|x: Label| labels_in(lines_view(p.active.lines@)).contains(x) implies ml.to_set().contains(x) by {
                let i2 = choose|i2: int| 0 <= i2 < lines_view(p.active.lines@).len() && #[trigger] pos_has(positions(lines_view(p.active.lines@)[i2]), x);
                let l = p.active.lines@[i2]@;
                assert(lines_view(p.active.lines@)[i2] == l);
                assert(parsed_line(l, ad as int, n));
                let k2 = choose|k2: int| 0 <= k2 < positions(l).len() && (#[trigger] positions(l)[k2]).contains(x);
                let m = choose|m: int| 0 <= m < positions(l)[k2].len() && positions(l)[k2][m] == x;
                assert(positions(l)[k2][m] < n);
                assert(ml[x as int] == x);
            }
            assert forall|x: Label| labels_in(lines_view(p.passive.lines@)).contains(x) implies ml.to_set().contains(x) by {
                let i2 = choose|i2: int| 0 <= i2 < lines_view(p.passive.lines@).len() && #[trigger] pos_has(positions(lines_view(p.passive.lines@)[i2]), x);
                let l = p.passive.lines@[i2]@;
                assert(lines_view(p.passive.lines@)[i2] == l);
                assert(parsed_line(l, pd as int, n));
                let k2 = choose|k2: int| 0 <= k2 < positions(l).len() && (#[trigger] positions(l)[k2]).contains(x);
                let m = choose|m: int| 0 <= m < positions(l)[k2].len() && positions(l)[k2][m] == x;
                assert(positions(l)[k2][m] < n);
                assert(ml[x as int] == x);
            }
            assert forall|q: int| 0 <= q < p.active.lines@.len() implies line_wf(#[trigger] p.active.lines@[q]@) && positions(
                p.active.lines@[q]@,
            ).len() == p.active.degree->Finite_0 by {
                assert(parsed_line(p.active.lines@[q]@, ad as int, n));
            }
            assert forall|q: int| 0 <= q < p.passive.lines@.len() implies line_wf(#[trigger] p.passive.lines@[q]@) && positions(
                p.passive.lines@[q]@,
            ).len() == p.passive.degree->Finite_0 by {
                assert(parsed_line(p.passive.lines@[q]@, pd as int, n));
            }
            assert forall|q: int, j: int| 0 <= q < p.active.lines@.len() && 0 <= j < p.active.lines@[q]@.len() - 1
                implies (#[trigger] p.active.lines@[q]@[j]).1 != p.active.lines@[q]@[j + 1].1 by {
                assert(parsed_line(p.active.lines@[q]@, ad as int, n));
            }
            assert forall|q: int, j: int| 0 <= q < p.passive.lines@.len() && 0 <= j < p.passive.lines@[q]@.len() - 1
                implies (#[trigger] p.passive.lines@[q]@[j]).1 != p.passive.lines@[q]@[j + 1].1 by {
                assert(parsed_line(p.passive.lines@[q]@, pd as int, n));
            }
            assert(ad >= 1);
            assert(pd >= 1);
        }
        Ok(p)
    }
}

} // verus!
