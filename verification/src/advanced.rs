use vstd::prelude::*;

use crate::glyphs::SPACE;
use crate::tape::{cell, extend, reads};
use crate::tmcore::{
    lemma_moves_keep_reads, lemma_write_word_cells, lemma_extend_empty, lemma_extend_twice, lemma_one_word, lemma_reads_extend, lemma_space_left,
    lemma_space_right, lemma_words_left, left_view, right_view, segment, space_left_of,
    space_right_of, word_left_view, words_left, write_word, BasicCommands, TMCore, TmView,
};

verus! {

// --- Specifications of the word commands

/// The tape with the blank over `lo..=hi`; the written cells stay the same.
pub open spec fn blank_range(m: Map<i32, char>, lo: int, hi: int) -> Map<i32, char> {
    Map::new(
        |k: i32| m.contains_key(k),
        |k: i32|
            if lo <= k <= hi {
                SPACE
            } else {
                m[k]
            },
    )
}

/// The tape after the head has walked over `lo..=hi` erasing every cell but
/// the one at `lo`: erasing writes the blank, so it happens only when the
/// alphabet holds the blank.
pub open spec fn erased(v: TmView, lo: int, hi: int, keep: int) -> Map<i32, char> {
    if v.alphabet.contains(SPACE) {
        blank_range(extend(v.tape, lo, hi), if keep == lo { lo + 1 } else { lo }, if keep == hi { hi - 1 } else { hi })
    } else {
        extend(v.tape, lo, hi)
    }
}

/// The machine after `delete_word_left`: the head on the nearest blank to
/// its left, the word between erased.
pub open spec fn delete_left_view(v: TmView) -> TmView {
    let p = space_left_of(reads(v.tape), v.head)->0;
    TmView { tape: erased(v, p, v.head - 1, p), head: p, alphabet: v.alphabet }
}

/// The machine after `delete_word_right`: the head on the nearest blank to
/// its right, the word between erased.
pub open spec fn delete_right_view(v: TmView) -> TmView {
    let p = space_right_of(reads(v.tape), v.head)->0;
    TmView { tape: erased(v, v.head + 1, p, p), head: p, alphabet: v.alphabet }
}

/// Where the head stops when it skips words to the left until the cell
/// left of it reads the blank.
pub open spec fn sequence_start(r: spec_fn(int) -> char, h: int) -> Option<int>
    decreases h - i32::MIN,
{
    if h <= i32::MIN {
        None
    } else if r(h - 1) == SPACE {
        Some(h)
    } else {
        match space_left_of(r, h) {
            Some(p) => if i32::MIN <= p < h {
                sequence_start(r, p)
            } else {
                None
            },
            None => None,
        }
    }
}

/// Where the head stops when it skips words to the right until the cell
/// right of it reads the blank.
pub open spec fn sequence_end(r: spec_fn(int) -> char, h: int) -> Option<int>
    decreases i32::MAX - h,
{
    if h >= i32::MAX {
        None
    } else if r(h + 1) == SPACE {
        Some(h)
    } else {
        match space_right_of(r, h) {
            Some(p) => if h < p <= i32::MAX {
                sequence_end(r, p)
            } else {
                None
            },
            None => None,
        }
    }
}

/// `n` skips of a sequence of words to the left.
pub open spec fn sequences_left(r: spec_fn(int) -> char, h: int, n: nat) -> Option<int>
    decreases n,
{
    if n == 0 {
        Some(h)
    } else {
        match sequences_left(r, h, (n - 1) as nat) {
            Some(q) => sequence_start(r, q),
            None => None,
        }
    }
}

/// `n` skips of a sequence of words to the right.
pub open spec fn sequences_right(r: spec_fn(int) -> char, h: int, n: nat) -> Option<int>
    decreases n,
{
    if n == 0 {
        Some(h)
    } else {
        match sequences_right(r, h, (n - 1) as nat) {
            Some(q) => sequence_end(r, q),
            None => None,
        }
    }
}

/// The machine after `skip_sequence_left(n)`.
pub open spec fn skip_left_view(v: TmView, n: nat) -> TmView {
    match sequences_left(reads(v.tape), v.head, n) {
        Some(p) => left_view(v, v.head - p),
        None => v,
    }
}

/// The machine after `skip_sequence_right(n)`.
pub open spec fn skip_right_view(v: TmView, n: nat) -> TmView {
    match sequences_right(reads(v.tape), v.head, n) {
        Some(p) => right_view(v, p - v.head),
        None => v,
    }
}

/// The tape with the symbols of `lo..=hi` in reverse order.
pub open spec fn reverse_span(m: Map<i32, char>, lo: int, hi: int) -> Map<i32, char> {
    Map::new(
        |k: i32| m.contains_key(k),
        |k: i32|
            if lo <= k <= hi {
                m[(lo + hi - k) as i32]
            } else {
                m[k]
            },
    )
}

/// The tape with the outer parts `lo..a` and `b+1..=hi` of `lo..=hi`
/// reversed into each other, the middle untouched.
pub open spec fn swapped_ends(m: Map<i32, char>, lo: int, hi: int, a: int, b: int) -> Map<i32, char> {
    Map::new(
        |k: i32| m.contains_key(k),
        |k: i32|
            if (lo <= k < a) || (b < k <= hi) {
                m[(lo + hi - k) as i32]
            } else {
                m[k]
            },
    )
}

/// The machine halfway through `inverse_word`: the head one cell left, and
/// the word around it reversed.
pub open spec fn inverse_mid_view(v: TmView) -> TmView {
    let v1 = left_view(v, 1);
    let r = reads(v.tape);
    let lo = space_left_of(r, v.head)->0 + 1;
    let hi = space_right_of(r, v.head - 2)->0 - 1;
    TmView { tape: reverse_span(v1.tape, lo, hi), ..v1 }
}

/// The machine after `inverse_word`: the word left of the head reversed, the
/// head on the blank before it.
pub open spec fn inverse_view(v: TmView) -> TmView {
    word_left_view(inverse_mid_view(v), 1)
}

/// `inverse_word` stays inside the range of positions.
pub open spec fn inverse_ok(v: TmView) -> bool {
    let r = reads(v.tape);
    &&& v.head - 1 >= i32::MIN
    &&& space_left_of(r, v.head) is Some
    &&& space_right_of(r, v.head - 2) is Some
    &&& space_left_of(reads(inverse_mid_view(v).tape), v.head - 1) is Some
}

/// The start of the run of blanks that ends just left of `h`: where a head
/// walking left stops once the cell left of it holds a symbol.
pub open spec fn blank_run_start(r: spec_fn(int) -> char, h: int) -> Option<int>
    decreases h - i32::MIN,
{
    if h <= i32::MIN {
        None
    } else if r(h - 1) != SPACE {
        Some(h)
    } else {
        blank_run_start(r, h - 1)
    }
}

/// The machine after `shift_one_word_backwards`: the word left of the head
/// erased and written again, in order, one blank after the previous word;
/// the head on the blank after it.
pub open spec fn shift_view(v: TmView) -> TmView {
    let r = reads(v.tape);
    let p = space_left_of(r, v.head)->0;
    let v1 = delete_left_view(v);
    let s = blank_run_start(reads(v1.tape), p)->0;
    write_word(right_view(left_view(v1, p - s), 1), segment(r, p + 1, v.head))
}

/// `shift_one_word_backwards` stays inside the range of positions; this
/// needs a symbol somewhere left of the word.
pub open spec fn shift_ok(v: TmView) -> bool {
    let r = reads(v.tape);
    let p = space_left_of(r, v.head)->0;
    let s = blank_run_start(reads(delete_left_view(v).tape), p);
    &&& space_left_of(r, v.head) is Some
    &&& s is Some
    &&& s->0 + 1 + (v.head - p - 1) <= i32::MAX
}

/// The machine after `copy_nth_word(n)`: the word that starts after the
/// blank `n` words left of the head is written again from the cell right of
/// the head; the head ends on the cell after the copy.
pub open spec fn copy_nth_view(v: TmView, n: nat) -> TmView {
    let r = reads(v.tape);
    let v1 = word_left_view(v, n);
    let w = segment(r, v1.head + 1, space_right_of(r, v1.head)->0);
    write_word(right_view(TmView { head: v.head, ..v1 }, 1), w)
}

/// `copy_nth_word(n)` stays inside the range of positions.
pub open spec fn copy_nth_ok(v: TmView, n: nat) -> bool {
    let r = reads(v.tape);
    let p = words_left(r, v.head, n);
    &&& p is Some
    &&& space_right_of(r, p->0) is Some
    &&& v.head + 1 + (space_right_of(r, p->0)->0 - p->0 - 1) <= i32::MAX
}

// --- Lemmas

pub proof fn lemma_sequence_start(r: spec_fn(int) -> char, h: int)
    ensures
        sequence_start(r, h) matches Some(p) ==> i32::MIN < p <= h && r(p - 1) == SPACE,
    decreases h - i32::MIN,
{
    if h > i32::MIN && r(h - 1) != SPACE {
        lemma_space_left(r, h);
        if let Some(p) = space_left_of(r, h) {
            lemma_sequence_start(r, p);
        }
    }
}

pub proof fn lemma_sequence_end(r: spec_fn(int) -> char, h: int)
    ensures
        sequence_end(r, h) matches Some(p) ==> h <= p < i32::MAX && r(p + 1) == SPACE,
    decreases i32::MAX - h,
{
    if h < i32::MAX && r(h + 1) != SPACE {
        lemma_space_right(r, h);
        if let Some(p) = space_right_of(r, h) {
            lemma_sequence_end(r, p);
        }
    }
}

pub proof fn lemma_sequences_left(r: spec_fn(int) -> char, h: int, n: nat, k: nat)
    requires
        k <= n,
        sequences_left(r, h, n) is Some,
    ensures
        sequences_left(r, h, k) is Some,
        sequences_left(r, h, n)->0 <= sequences_left(r, h, k)->0 <= h,
    decreases n,
{
    if n > 0 {
        lemma_sequence_start(r, sequences_left(r, h, (n - 1) as nat)->0);
        if k < n {
            lemma_sequences_left(r, h, (n - 1) as nat, k);
        }
        lemma_sequences_left(r, h, (n - 1) as nat, (n - 1) as nat);
    }
}

pub proof fn lemma_sequences_right(r: spec_fn(int) -> char, h: int, n: nat, k: nat)
    requires
        k <= n,
        sequences_right(r, h, n) is Some,
    ensures
        sequences_right(r, h, k) is Some,
        h <= sequences_right(r, h, k)->0 <= sequences_right(r, h, n)->0,
    decreases n,
{
    if n > 0 {
        lemma_sequence_end(r, sequences_right(r, h, (n - 1) as nat)->0);
        if k < n {
            lemma_sequences_right(r, h, (n - 1) as nat, k);
        }
        lemma_sequences_right(r, h, (n - 1) as nat, (n - 1) as nat);
    }
}

pub proof fn lemma_blank_run(r: spec_fn(int) -> char, h: int)
    ensures
        blank_run_start(r, h) matches Some(s) ==> i32::MIN < s <= h && r(s - 1) != SPACE
            && forall|q: int| s <= q < h ==> #[trigger] r(q) == SPACE,
    decreases h - i32::MIN,
{
    if h > i32::MIN && r(h - 1) == SPACE {
        lemma_blank_run(r, h - 1);
    }
}

// --- The word commands

impl TMCore {
    /// Steps left onto the nearest blank, erasing the word stepped over and
    /// handing it back, left to right.
    fn take_erased_word_left(&mut self) -> (w: Vec<char>)
        requires
            space_left_of(reads(old(self)@.tape), old(self)@.head) is Some,
        ensures
            final(self)@ == delete_left_view(old(self)@),
            w@ == segment(
                reads(old(self)@.tape),
                space_left_of(reads(old(self)@.tape), old(self)@.head)->0 + 1,
                old(self)@.head,
            ),
    {
        let ghost v0 = self@;
        let ghost r = reads(v0.tape);
        let ghost p = space_left_of(r, v0.head)->0;
        proof {
            lemma_space_left(r, v0.head);
        }
        self.left(1);
        proof {
            lemma_reads_extend(v0.tape, v0.head - 1, v0.head - 1);
            assert(self@.tape =~= erased(v0, self@.head, v0.head - 1, self@.head));
        }
        let mut word: Vec<char> = Vec::new();
        assert(word@ =~= segment(r, self@.head + 1, v0.head));
        while self.read() != SPACE
            invariant
                i32::MIN <= p <= self@.head < v0.head,
                r == reads(v0.tape),
                r(p) == SPACE,
                forall|q: int| p < q < v0.head ==> #[trigger] r(q) != SPACE,
                self@.head == v0.head - (v0.head - self@.head),
                self@.alphabet == v0.alphabet,
                self@.tape == erased(v0, self@.head, v0.head - 1, self@.head),
                forall|q: int| i32::MIN <= q <= self@.head ==> #[trigger] cell(self@.tape, q) == r(q),
                word@ == segment(r, self@.head + 1, v0.head),
            decreases self@.head - p,
        {
            let c = self.read();
            let ghost before = self@;
            assert(r(before.head) == c);
            word.insert(0, c);
            self.write(SPACE);
            self.left(1);
            proof {
                assert(self@.tape =~= erased(v0, self@.head, v0.head - 1, self@.head));
                assert forall|q: int| i32::MIN <= q <= self@.head implies #[trigger] cell(self@.tape, q) == r(q) by {
                    assert(cell(before.tape, q) == r(q));
                }
                assert(word@ =~= segment(r, self@.head + 1, v0.head));
            }
        }
        proof {
            assert(cell(self@.tape, self@.head) == r(self@.head));
        }
        word
    }

    /// Walks left while the cell left of the head reads the blank.
    fn walk_blank_run_left(&mut self)
        requires
            blank_run_start(reads(old(self)@.tape), old(self)@.head) is Some,
        ensures
            final(self)@ == left_view(
                old(self)@,
                old(self)@.head - blank_run_start(reads(old(self)@.tape), old(self)@.head)->0,
            ),
    {
        let ghost v0 = self@;
        let ghost r = reads(v0.tape);
        let ghost s = blank_run_start(r, v0.head)->0;
        proof {
            lemma_extend_empty(v0.tape, v0.head, v0.head - 1);
            lemma_blank_run(r, v0.head);
        }
        while self.read_index(self.head_position - 1) == SPACE
            invariant
                r == reads(v0.tape),
                blank_run_start(r, self@.head) == Some(s),
                s <= self@.head <= v0.head,
                self@ == left_view(v0, v0.head - self@.head),
            decreases self@.head - i32::MIN,
        {
            let ghost before = self@;
            proof {
                lemma_blank_run(r, before.head);
                lemma_reads_extend(v0.tape, before.head, v0.head - 1);
                assert(r(before.head - 1) == SPACE);
            }
            self.left(1);
            proof {
                lemma_extend_twice(v0.tape, before.head, v0.head - 1, before.head - 1, before.head - 1, before.head - 1, v0.head - 1);
            }
        }
        proof {
            lemma_reads_extend(v0.tape, self@.head, v0.head - 1);
            lemma_blank_run(r, self@.head);
            assert(r(self@.head - 1) != SPACE);
        }
    }

    /// Reverses the cells `lo..=hi`, all of them written.
    fn reverse_cells(&mut self, lo: i32, hi: i32)
        requires
            lo <= hi + 2,
            forall|k: int| lo <= k <= hi ==> #[trigger] old(self)@.tape.contains_key(k as i32),
        ensures
            final(self)@ == (TmView { tape: reverse_span(old(self)@.tape, lo as int, hi as int), ..old(self)@ }),
    {
        let ghost v0 = self@;
        let ghost m = v0.tape;
        let mut left = lo;
        let mut right = hi;
        assert(self@.tape =~= swapped_ends(m, lo as int, hi as int, lo as int, hi as int));
        while left < right
            invariant
                lo <= left,
                right <= hi,
                left <= right + 2,
                left - lo == hi - right,
                forall|k: int| lo <= k <= hi ==> #[trigger] m.contains_key(k as i32),
                self@ == (TmView { tape: swapped_ends(m, lo as int, hi as int, left as int, right as int), ..v0 }),
            decreases right - left + 2,
        {
            let lc = self.read_index(left);
            let rc = self.read_index(right);
            proof {
                assert(m.contains_key(left));
                assert(m.contains_key(right));
                assert(lc == m[left]);
                assert(rc == m[right]);
            }
            self.tape.write(rc, left);
            self.tape.write(lc, right);
            left += 1;
            right -= 1;
            proof {
                assert(self@.tape =~= swapped_ends(m, lo as int, hi as int, left as int, right as int));
            }
        }
        assert(self@.tape =~= reverse_span(m, lo as int, hi as int));
    }

    /// Steps right onto the nearest blank, erasing the word stepped over.
    fn erase_word_right(&mut self)
        requires
            space_right_of(reads(old(self)@.tape), old(self)@.head) is Some,
        ensures
            final(self)@ == delete_right_view(old(self)@),
    {
        let ghost v0 = self@;
        let ghost r = reads(v0.tape);
        let ghost p = space_right_of(r, v0.head)->0;
        proof {
            lemma_space_right(r, v0.head);
        }
        self.right(1);
        proof {
            assert(self@.tape =~= erased(v0, v0.head + 1, self@.head, self@.head));
        }
        while self.read() != SPACE
            invariant
                v0.head < self@.head <= p <= i32::MAX,
                r == reads(v0.tape),
                r(p) == SPACE,
                forall|q: int| v0.head < q < p ==> #[trigger] r(q) != SPACE,
                self@.alphabet == v0.alphabet,
                self@.tape == erased(v0, v0.head + 1, self@.head, self@.head),
                forall|q: int| self@.head <= q <= i32::MAX ==> #[trigger] cell(self@.tape, q) == r(q),
            decreases p - self@.head,
        {
            let ghost before = self@;
            assert(cell(before.tape, before.head) == r(before.head));
            self.write(SPACE);
            self.right(1);
            proof {
                assert(self@.tape =~= erased(v0, v0.head + 1, self@.head, self@.head));
                assert forall|q: int| self@.head <= q <= i32::MAX implies #[trigger] cell(self@.tape, q) == r(q) by {
                    assert(cell(before.tape, q) == r(q));
                }
            }
        }
        proof {
            assert(cell(self@.tape, self@.head) == r(self@.head));
        }
    }

    /// One skip of a sequence of words to the left.
    fn skip_once_left(&mut self)
        requires
            sequence_start(reads(old(self)@.tape), old(self)@.head) is Some,
        ensures
            final(self)@ == left_view(
                old(self)@,
                old(self)@.head - sequence_start(reads(old(self)@.tape), old(self)@.head)->0,
            ),
    {
        let ghost v0 = self@;
        let ghost r = reads(v0.tape);
        let ghost target = sequence_start(r, v0.head)->0;
        proof {
            lemma_extend_empty(v0.tape, v0.head, v0.head - 1);
            lemma_sequence_start(r, v0.head);
        }
        while self.read_index(self.head_position - 1) != SPACE
            invariant
                r == reads(v0.tape),
                sequence_start(r, self@.head) == Some(target),
                target <= self@.head <= v0.head,
                self@ == left_view(v0, v0.head - self@.head),
            decreases self@.head - i32::MIN,
        {
            let ghost before = self@;
            proof {
                lemma_sequence_start(r, before.head);
                lemma_reads_extend(v0.tape, before.head, v0.head - 1);
                lemma_one_word(r, before.head);
                lemma_space_left(r, before.head);
                assert(r(before.head - 1) != SPACE);
            }
            self.word_left(1);
            proof {
                let p = space_left_of(r, before.head)->0;
                lemma_extend_twice(v0.tape, before.head, v0.head - 1, p, before.head - 1, p, v0.head - 1);
                lemma_sequence_start(r, p);
            }
        }
        proof {
            lemma_reads_extend(v0.tape, self@.head, v0.head - 1);
            assert(r(self@.head - 1) == SPACE);
        }
    }

    /// One skip of a sequence of words to the right.
    fn skip_once_right(&mut self)
        requires
            sequence_end(reads(old(self)@.tape), old(self)@.head) is Some,
        ensures
            final(self)@ == right_view(
                old(self)@,
                sequence_end(reads(old(self)@.tape), old(self)@.head)->0 - old(self)@.head,
            ),
    {
        let ghost v0 = self@;
        let ghost r = reads(v0.tape);
        let ghost target = sequence_end(r, v0.head)->0;
        proof {
            lemma_extend_empty(v0.tape, v0.head + 1, v0.head);
            lemma_sequence_end(r, v0.head);
        }
        while self.read_index(self.head_position + 1) != SPACE
            invariant
                r == reads(v0.tape),
                sequence_end(r, self@.head) == Some(target),
                v0.head <= self@.head <= target,
                self@ == right_view(v0, self@.head - v0.head),
            decreases i32::MAX - self@.head,
        {
            let ghost before = self@;
            proof {
                lemma_sequence_end(r, before.head);
                lemma_reads_extend(v0.tape, v0.head + 1, before.head);
                lemma_one_word(r, before.head);
                lemma_space_right(r, before.head);
                assert(r(before.head + 1) != SPACE);
            }
            self.word_right(1);
            proof {
                let p = space_right_of(r, before.head)->0;
                lemma_extend_twice(v0.tape, v0.head + 1, before.head, before.head + 1, p, v0.head + 1, p);
                lemma_sequence_end(r, p);
            }
        }
        proof {
            lemma_reads_extend(v0.tape, v0.head + 1, self@.head);
            assert(r(self@.head + 1) == SPACE);
        }
    }
}

/// Word-level commands built from the primitive ones.
pub trait AdvancedCommands: BasicCommands {
    /// Erases the word left of the head; the head ends on the blank before it.
    fn delete_word_left(&mut self)
        requires
            space_left_of(reads(old(self).machine().tape), old(self).machine().head) is Some,
        ensures
            final(self).machine() == delete_left_view(old(self).machine()),
    ;

    /// Erases the word right of the head; the head ends on the blank after it.
    fn delete_word_right(&mut self)
        requires
            space_right_of(reads(old(self).machine().tape), old(self).machine().head) is Some,
        ensures
            final(self).machine() == delete_right_view(old(self).machine()),
    ;

    /// Skips `power` sequences of words to the left: each skip walks word by
    /// word until the cell left of the head reads the blank.
    fn skip_sequence_left(&mut self, power: u32)
        requires
            sequences_left(reads(old(self).machine().tape), old(self).machine().head, power as nat) is Some,
        ensures
            final(self).machine() == skip_left_view(old(self).machine(), power as nat),
    ;

    /// Skips `power` sequences of words to the right.
    fn skip_sequence_right(&mut self, power: u32)
        requires
            sequences_right(reads(old(self).machine().tape), old(self).machine().head, power as nat) is Some,
        ensures
            final(self).machine() == skip_right_view(old(self).machine(), power as nat),
    ;

    /// Reverses the word left of the head; the head ends on the blank before
    /// it.
    fn inverse_word(&mut self)
        requires
            inverse_ok(old(self).machine()),
        ensures
            final(self).machine() == inverse_view(old(self).machine()),
    ;

    /// Moves the word left of the head leftwards until one blank separates
    /// it from the previous word; the head ends on the blank after it.
    fn shift_one_word_backwards(&mut self)
        requires
            shift_ok(old(self).machine()),
        ensures
            final(self).machine() == shift_view(old(self).machine()),
    ;

    /// Copies the `n`-th word left of the head and writes it from the cell
    /// right of the head; the head ends on the cell after the copy.
    fn copy_nth_word(&mut self, n: u32)
        requires
            copy_nth_ok(old(self).machine(), n as nat),
        ensures
            final(self).machine() == copy_nth_view(old(self).machine(), n as nat),
    ;
}

impl AdvancedCommands for TMCore {
    fn delete_word_left(&mut self) {
        let _ = self.take_erased_word_left();
    }

    fn delete_word_right(&mut self) {
        self.erase_word_right();
    }

    fn skip_sequence_left(&mut self, power: u32) {
        let ghost v0 = self@;
        let ghost r = reads(v0.tape);
        proof {
            lemma_extend_empty(v0.tape, v0.head, v0.head - 1);
        }
        for i in 0..power
            invariant
                r == reads(v0.tape),
                sequences_left(r, v0.head, power as nat) is Some,
                self@ == skip_left_view(v0, i as nat),
        {
            proof {
                lemma_sequences_left(r, v0.head, power as nat, i as nat);
                lemma_sequences_left(r, v0.head, power as nat, (i + 1) as nat);
                lemma_sequences_left(r, v0.head, (i + 1) as nat, i as nat);
                lemma_reads_extend(v0.tape, sequences_left(r, v0.head, i as nat)->0, v0.head - 1);
            }
            let ghost before = self@;
            self.skip_once_left();
            proof {
                let p = sequences_left(r, v0.head, (i + 1) as nat)->0;
                lemma_extend_twice(v0.tape, before.head, v0.head - 1, p, before.head - 1, p, v0.head - 1);
            }
        }
    }

    fn skip_sequence_right(&mut self, power: u32) {
        let ghost v0 = self@;
        let ghost r = reads(v0.tape);
        proof {
            lemma_extend_empty(v0.tape, v0.head + 1, v0.head);
        }
        for i in 0..power
            invariant
                r == reads(v0.tape),
                sequences_right(r, v0.head, power as nat) is Some,
                self@ == skip_right_view(v0, i as nat),
        {
            proof {
                lemma_sequences_right(r, v0.head, power as nat, i as nat);
                lemma_sequences_right(r, v0.head, power as nat, (i + 1) as nat);
                lemma_sequences_right(r, v0.head, (i + 1) as nat, i as nat);
                lemma_reads_extend(v0.tape, v0.head + 1, sequences_right(r, v0.head, i as nat)->0);
            }
            let ghost before = self@;
            self.skip_once_right();
            proof {
                let p = sequences_right(r, v0.head, (i + 1) as nat)->0;
                lemma_extend_twice(v0.tape, v0.head + 1, before.head, before.head + 1, p, v0.head + 1, p);
            }
        }
    }

    fn inverse_word(&mut self) {
        let ghost v0 = self@;
        let ghost r = reads(v0.tape);
        let ghost p = space_left_of(r, v0.head)->0;
        let ghost q = space_right_of(r, v0.head - 2)->0;
        proof {
            lemma_space_left(r, v0.head);
            lemma_space_right(r, v0.head - 2);
        }
        self.left(1);
        let ghost v1 = self@;
        proof {
            lemma_reads_extend(v0.tape, v0.head - 1, v0.head - 1);
        }
        let mid = self.head_position;
        let mut left = mid;
        while self.read_index(left) != SPACE
            invariant
                r == reads(v0.tape),
                r == reads(self@.tape),
                mid == v0.head - 1,
                i32::MIN <= p <= left <= mid,
                r(p) == SPACE,
                forall|k: int| p < k < v0.head ==> #[trigger] r(k) != SPACE,
            decreases left - p,
        {
            left -= 1;
        }
        proof {
            assert(r(left as int) == SPACE);
        }
        left += 1;
        let mut right = mid;
        while self.read_index(right) != SPACE
            invariant
                r == reads(v0.tape),
                r == reads(self@.tape),
                mid == v0.head - 1,
                mid <= right <= q <= i32::MAX,
                r(q) == SPACE,
                forall|k: int| v0.head - 2 < k < q ==> #[trigger] r(k) != SPACE,
            decreases q - right,
        {
            right += 1;
        }
        proof {
            assert(r(right as int) == SPACE);
        }
        right -= 1;
        proof {
            assert forall|k: int| left <= k <= right implies #[trigger] self@.tape.contains_key(k as i32) by {
                assert(r(k) != SPACE);
                assert(reads(self@.tape)(k) != SPACE);
            }
        }
        self.reverse_cells(left, right);
        proof {
            lemma_one_word(reads(self@.tape), self@.head);
        }
        self.word_left(1);
    }

    fn shift_one_word_backwards(&mut self) {
        let ghost v0 = self@;
        proof {
            lemma_space_left(reads(v0.tape), v0.head);
        }
        let word = self.take_erased_word_left();
        self.walk_blank_run_left();
        self.right(1);
        self.write_word_exec(&word);
    }

    fn copy_nth_word(&mut self, n: u32) {
        let ghost v0 = self@;
        let ghost r = reads(v0.tape);
        let saved = self.head_position;
        proof {
            lemma_words_left(r, v0.head, n as nat, n as nat);
        }
        self.word_left(n);
        let ghost p = self@.head;
        let ghost q = space_right_of(r, p)->0;
        proof {
            lemma_space_right(r, p);
            lemma_reads_extend(v0.tape, p, v0.head - 1);
        }
        let mut word: Vec<char> = Vec::new();
        let mut i = self.head_position + 1;
        assert(word@ =~= segment(r, p + 1, i as int));
        while self.read_index(i) != SPACE
            invariant
                r == reads(self@.tape),
                p < i <= q <= i32::MAX,
                r(q) == SPACE,
                forall|k: int| p < k < q ==> #[trigger] r(k) != SPACE,
                word@ == segment(r, p + 1, i as int),
            decreases q - i,
        {
            let c = self.read_index(i);
            word.push(c);
            i += 1;
            assert(word@ =~= segment(r, p + 1, i as int));
        }
        proof {
            assert(r(i as int) == SPACE);
        }
        self.head_position = saved;
        self.right(1);
        self.write_word_exec(&word);
    }
}

/// `inverse_word` reverses the whole word it stands in: with `lo` the cell
/// after the blank left of the head and `hi` the cell before the next blank
/// from the cell left of the head on, every cell `k` of `lo..=hi` then reads
/// what cell `lo + hi - k` read before, and every other cell reads as before.
/// The cells of `lo..=hi` hold no blank and are bounded by blanks.
pub proof fn lemma_inverse_reverses_word(v: TmView, lo: int, hi: int)
    requires
        inverse_ok(v),
        lo == space_left_of(reads(v.tape), v.head)->0 + 1,
        hi == space_right_of(reads(v.tape), v.head - 2)->0 - 1,
    ensures
        cell(v.tape, lo - 1) == SPACE,
        cell(v.tape, hi + 1) == SPACE,
        forall|k: int| lo <= k <= hi ==> #[trigger] cell(v.tape, k) != SPACE,
        forall|k: int| lo <= k <= hi ==> #[trigger] cell(inverse_view(v).tape, k) == cell(v.tape, lo + hi - k),
        forall|k: int|
            i32::MIN <= k <= i32::MAX && (k < lo || hi < k) ==> #[trigger] cell(inverse_view(v).tape, k) == cell(v.tape, k),
{
    let r = reads(v.tape);
    lemma_space_left(r, v.head);
    lemma_space_right(r, v.head - 2);
    let v1 = left_view(v, 1);
    let mid = inverse_mid_view(v);
    lemma_reads_extend(v.tape, v.head - 1, v.head - 1);
    lemma_moves_keep_reads(mid, 1);
    assert(inverse_view(v) == word_left_view(mid, 1));
    let fin = inverse_view(v).tape;
    assert forall|k: int| lo <= k <= hi implies #[trigger] cell(v.tape, k) != SPACE by {
        if k < v.head {
            assert(r(k) != SPACE);
        } else {
            assert(r(k) != SPACE);
        }
    }
    assert forall|k: int| lo <= k <= hi implies #[trigger] cell(fin, k) == cell(v.tape, lo + hi - k) by {
        let k2 = lo + hi - k;
        assert(cell(v.tape, k2) != SPACE);
        assert(v.tape.contains_key(k2 as i32));
        assert(cell(v.tape, k) != SPACE);
        assert(v1.tape.contains_key(k as i32));
        assert(mid.tape.contains_key(k as i32));
        assert(mid.tape[k as i32] == v1.tape[k2 as i32]);
        assert(reads(fin)(k) == reads(mid.tape)(k));
    }
    assert forall|k: int| i32::MIN <= k <= i32::MAX && (k < lo || hi < k) implies #[trigger] cell(fin, k) == cell(v.tape, k) by {
        assert(reads(fin)(k) == reads(mid.tape)(k));
        assert(reads(v1.tape)(k) == r(k));
        if mid.tape.contains_key(k as i32) {
            assert(mid.tape[k as i32] == v1.tape[k as i32]);
        }
    }
}

/// `copy_nth_word(n)` copies the word as it stands: with `p` the blank that
/// `n` word steps left of the head reach and `q` the next blank right of
/// `p`, the `q - p - 1` symbols between them, each in the alphabet, are
/// written from the cell right of the head on in their left-to-right order,
/// so that cell `v.head + 1 + j` reads what cell `p + 1 + j` read; every
/// other cell reads as before, and the head ends on the cell after the copy.
pub proof fn lemma_copy_nth_copies_word(v: TmView, n: nat, p: int, q: int)
    requires
        copy_nth_ok(v, n),
        i32::MIN <= v.head <= i32::MAX,
        p == words_left(reads(v.tape), v.head, n)->0,
        q == space_right_of(reads(v.tape), p)->0,
        forall|k: int| p < k < q ==> v.alphabet.contains(#[trigger] cell(v.tape, k)),
    ensures
        copy_nth_view(v, n).head == v.head + 1 + (q - p - 1),
        forall|k: int| v.head + 1 <= k < v.head + 1 + (q - p - 1)
            ==> #[trigger] cell(copy_nth_view(v, n).tape, k) == cell(v.tape, k - v.head - 1 + p + 1),
        forall|k: int|
            i32::MIN <= k <= i32::MAX && (k <= v.head || v.head + 1 + (q - p - 1) <= k)
                ==> #[trigger] cell(copy_nth_view(v, n).tape, k) == cell(v.tape, k),
{
    let r = reads(v.tape);
    lemma_words_left(r, v.head, n, n);
    lemma_space_right(r, p);
    let v1 = word_left_view(v, n);
    assert(v1 == left_view(v, v.head - p));
    lemma_reads_extend(v.tape, p, v.head - 1);
    let s0 = right_view(TmView { head: v.head, ..v1 }, 1);
    lemma_reads_extend(v1.tape, v.head + 1, v.head + 1);
    assert(reads(s0.tape) == r);
    let w = segment(r, p + 1, q);
    assert forall|j: int| 0 <= j < w.len() implies s0.alphabet.contains(#[trigger] w[j]) by {
        assert(w[j] == r(p + 1 + j));
        assert(v.alphabet.contains(cell(v.tape, p + 1 + j)));
    }
    lemma_write_word_cells(s0, w);
    assert(copy_nth_view(v, n) == write_word(s0, w));
    let fin = copy_nth_view(v, n).tape;
    assert forall|k: int| v.head + 1 <= k < v.head + 1 + (q - p - 1)
        implies #[trigger] cell(fin, k) == cell(v.tape, k - v.head - 1 + p + 1) by {
        assert(cell(fin, k) == w[k - s0.head]);
        assert(w[k - s0.head] == r(p + 1 + (k - s0.head)));
    }
    assert forall|k: int|
        i32::MIN <= k <= i32::MAX && (k <= v.head || v.head + 1 + (q - p - 1) <= k)
            implies #[trigger] cell(fin, k) == cell(v.tape, k) by {
        assert(cell(fin, k) == cell(s0.tape, k));
        assert(reads(s0.tape)(k) == r(k));
    }
}

} // verus!
