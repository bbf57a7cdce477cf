use std::collections::HashMap;
use std::ops::RangeInclusive;
use vstd::prelude::*;

use crate::glyphs::{push_char, LAMBDA, SPACE};

verus! {

broadcast use vstd::std_specs::hash::group_hash_axioms;

/// What a cell of the tape reads: its stored symbol, or the blank when the
/// cell was never written.
pub open spec fn cell(m: Map<i32, char>, p: int) -> char {
    if m.contains_key(p as i32) {
        m[p as i32]
    } else {
        SPACE
    }
}

/// The tape as a function from position to symbol read there.
pub open spec fn reads(m: Map<i32, char>) -> spec_fn(int) -> char {
    |p: int| cell(m, p)
}

/// What a cell shows: the blank (written or never written) as lambda.
pub open spec fn shown(m: Map<i32, char>, p: int) -> char {
    if cell(m, p) == SPACE {
        LAMBDA
    } else {
        cell(m, p)
    }
}

/// Reading a cell just written gives what was written; every other cell
/// reads as before.
pub proof fn lemma_cell_after_write(m: Map<i32, char>, i: i32, c: char, j: i32)
    ensures
        cell(m.insert(i, c), i as int) == c,
        j != i ==> cell(m.insert(i, c), j as int) == cell(m, j as int),
{
}

/// The tape with every never-written cell of `lo..=hi` now holding the blank.
pub open spec fn extend(m: Map<i32, char>, lo: int, hi: int) -> Map<i32, char> {
    Map::new(
        |k: i32| m.contains_key(k) || (lo <= k && k <= hi),
        |k: i32|
            if m.contains_key(k) {
                m[k]
            } else {
                SPACE
            },
    )
}

/// The tape holding `chars[i]` at position `i`, and nothing else.
pub open spec fn seq_tape(chars: Seq<char>) -> Map<i32, char> {
    Map::new(|k: i32| 0 <= k < chars.len(), |k: i32| chars[k as int])
}

/// The glyph a cell shows in a rendering: a never-written cell shows
/// lambda; a written blank shows lambda when `lambda` asks for it and the
/// blank itself otherwise; any other symbol shows itself.
pub open spec fn glyph(m: Map<i32, char>, p: int, lambda: bool) -> char {
    if m.contains_key(p as i32) {
        if lambda && m[p as i32] == SPACE {
            LAMBDA
        } else {
            m[p as i32]
        }
    } else {
        LAMBDA
    }
}

/// Text of one displayed cell: the glyph, in parentheses where the head is.
pub open spec fn cell_text(m: Map<i32, char>, p: int, lambda: bool, head: Option<i32>) -> Seq<char> {
    if head == Some(p as i32) {
        seq!['(', glyph(m, p, lambda), ')']
    } else {
        seq![glyph(m, p, lambda)]
    }
}

/// The cells `lo .. lo + n` shown one after another, separated by ", ".
pub open spec fn cells_text(m: Map<i32, char>, lo: int, n: nat, lambda: bool, head: Option<i32>) -> Seq<char>
    decreases n,
{
    if n == 0 {
        Seq::empty()
    } else if n == 1 {
        cell_text(m, lo, lambda, head)
    } else {
        cells_text(m, lo, (n - 1) as nat, lambda, head) + seq![',', ' '] + cell_text(
            m,
            lo + n - 1,
            lambda,
            head,
        )
    }
}

/// The rendering of cells `lo .. lo + n`: `[ ` then the cells then ` >`.
pub open spec fn tape_text(m: Map<i32, char>, lo: int, n: nat, lambda: bool, head: Option<i32>) -> Seq<char> {
    seq!['[', ' '] + cells_text(m, lo, n, lambda, head) + seq![' ', '>']
}

/// The number of positions that an inclusive range walks through.
pub open spec fn range_count(start: i32, end: i32, empty: bool) -> nat {
    if empty || start > end {
        0
    } else {
        (end - start + 1) as nat
    }
}

/// Lower bound of an inclusive range (std `RangeInclusive::start`).
///
/// Claimed of `start`: it returns the range's lower bound.
#[verifier::external_body]
fn range_start(r: &RangeInclusive<i32>) -> (s: i32)
    ensures
        s == r@.start,
{
    *r.start()
}

/// Upper bound of an inclusive range (std `RangeInclusive::end`).
///
/// Claimed of `end`: it returns the range's upper bound.
#[verifier::external_body]
fn range_end(r: &RangeInclusive<i32>) -> (e: i32)
    ensures
        e == r@.end,
{
    *r.end()
}

/// Whether an inclusive range holds no item (std `RangeInclusive::is_empty`).
///
/// Claimed of `is_empty`: a range is empty exactly when it has been walked
/// to its end or its lower bound exceeds its upper bound.
#[verifier::external_body]
fn range_is_empty(r: &RangeInclusive<i32>) -> (b: bool)
    ensures
        b == (r@.exhausted || r@.start > r@.end),
{
    r.is_empty()
}

/// The tape: a finite map from positions to written symbols; every other
/// cell reads the blank.
#[derive(Debug, Clone)]
pub struct Tape {
    items: HashMap<i32, char>,
}

impl View for Tape {
    type V = Map<i32, char>;

    closed spec fn view(&self) -> Map<i32, char> {
        self.items@
    }
}

impl Default for Tape {
    /// An empty tape.
    fn default() -> (t: Self)
        ensures
            t@ == Map::<i32, char>::empty(),
    {
        Tape::new()
    }
}

impl Tape {
    /// Creates an empty tape.
    pub fn new() -> (t: Self)
        ensures
            t@ == Map::<i32, char>::empty(),
    {
        Tape { items: HashMap::new() }
    }

    /// Forgets every written cell.
    pub fn reset_tape(&mut self)
        ensures
            final(self)@ == Map::<i32, char>::empty(),
    {
        self.items.clear();
    }

    /// Creates a tape holding `chars`, the first one at position 0.
    pub fn from_iter(chars: Vec<char>) -> (t: Self)
        requires
            chars@.len() <= 0x8000_0000,
        ensures
            t@ == seq_tape(chars@),
    {
        let mut items: HashMap<i32, char> = HashMap::new();
        let mut i: usize = 0;
        while i < chars.len()
            invariant
                i <= chars@.len() <= 0x8000_0000,
                items@ == Map::new(|k: i32| 0 <= k < i, |k: i32| chars@[k as int]),
            decreases chars.len() - i,
        {
            let k: i32 = i as i32;
            items.insert(k, chars[i]);
            i += 1;
            assert(items@ =~= Map::new(|k: i32| 0 <= k < i, |k: i32| chars@[k as int]));
        }
        assert(items@ =~= seq_tape(chars@));
        Tape { items }
    }

    /// Returns the symbol written at `index`, if any.
    pub fn peek(&self, index: i32) -> (r: Option<char>)
        ensures
            r == (if self@.contains_key(index) {
                Some(self@[index])
            } else {
                None
            }),
    {
        match self.items.get(&index) {
            Some(c) => Some(*c),
            None => None,
        }
    }

    /// Writes the blank at `index` unless something is written there.
    pub fn extend_tape(&mut self, index: i32)
        ensures
            final(self)@ == extend(old(self)@, index as int, index as int),
    {
        if !self.items.contains_key(&index) {
            self.items.insert(index, SPACE);
        }
        assert(self@ =~= extend(old(self)@, index as int, index as int));
    }

    /// Writes `value` at `index`.
    pub fn write(&mut self, value: char, index: i32)
        ensures
            final(self)@ == old(self)@.insert(index, value),
    {
        self.items.insert(index, value);
    }

    /// Reads the cell at `index`; the blank where nothing is written.
    pub fn read_or_space(&self, index: i32) -> (c: char)
        ensures
            c == cell(self@, index as int),
    {
        match self.items.get(&index) {
            Some(c) => *c,
            None => SPACE,
        }
    }

    /// Reads the cell at `index`, showing the blank as lambda.
    pub fn read_or_lambda(&self, index: i32) -> (c: char)
        ensures
            c == shown(self@, index as int),
    {
        match self.items.get(&index) {
            Some(c) => if *c == SPACE {
                LAMBDA
            } else {
                *c
            },
            None => LAMBDA,
        }
    }

    /// The written cells.
    pub fn items(&self) -> (m: &HashMap<i32, char>)
        ensures
            m@ == self@,
    {
        &self.items
    }

    /// Renders the cells of `range` as `[ a, b, (c) >`, the cell under
    /// `head_position` in parentheses; a never-written cell shows lambda,
    /// a written blank shows lambda only when `space_to_lambda` asks for it.
    pub fn format_tape(
        &self,
        range: RangeInclusive<i32>,
        space_to_lambda: bool,
        head_position: Option<i32>,
    ) -> (s: String)
        ensures
            s@ == tape_text(
                self@,
                range@.start as int,
                range_count(range@.start, range@.end, range@.exhausted),
                space_to_lambda,
                head_position,
            ),
    {
        let start = range_start(&range);
        let end = range_end(&range);
        let empty = range_is_empty(&range);
        let ghost n = range_count(range@.start, range@.end, range@.exhausted);
        let mut result = String::new();
        push_char(&mut result, '[');
        push_char(&mut result, ' ');
        if !empty {
            let mut pos: i32 = start;
            loop
                invariant_except_break
                    start <= pos <= end,
                    n == end - start + 1,
                    result@ == seq!['[', ' '] + cells_text(
                        self@,
                        start as int,
                        (pos - start) as nat,
                        space_to_lambda,
                        head_position,
                    ),
                ensures
                    result@ == seq!['[', ' '] + cells_text(self@, start as int, n, space_to_lambda, head_position),
                decreases end - pos,
            {
                if pos > start {
                    push_char(&mut result, ',');
                    push_char(&mut result, ' ');
                }
                let display_ch = match self.peek(pos) {
                    Some(ch) => if space_to_lambda && ch == SPACE {
                        LAMBDA
                    } else {
                        ch
                    },
                    None => LAMBDA,
                };
                let at_head = match head_position {
                    Some(h) => h == pos,
                    None => false,
                };
                if at_head {
                    push_char(&mut result, '(');
                    push_char(&mut result, display_ch);
                    push_char(&mut result, ')');
                } else {
                    push_char(&mut result, display_ch);
                }
                proof {
                    let k = (pos - start) as nat;
                    assert(cells_text(self@, start as int, k + 1, space_to_lambda, head_position) =~= if k == 0 {
                        cell_text(self@, start as int, space_to_lambda, head_position)
                    } else {
                        cells_text(self@, start as int, k, space_to_lambda, head_position) + seq![',', ' ']
                            + cell_text(self@, start as int + k, space_to_lambda, head_position)
                    });
                    assert(result@ =~= seq!['[', ' '] + cells_text(
                        self@,
                        start as int,
                        k + 1,
                        space_to_lambda,
                        head_position,
                    ));
                }
                if pos == end {
                    break;
                }
                pos = pos + 1;
            }
        }
        push_char(&mut result, ' ');
        push_char(&mut result, '>');
        assert(result@ =~= tape_text(self@, start as int, n, space_to_lambda, head_position));
        result
    }
}

} // verus!
