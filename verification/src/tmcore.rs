use vstd::prelude::*;

use std::ops::RangeInclusive;

use crate::glyphs::SPACE;
use crate::tape::{cell, extend, reads, seq_tape, tape_text, range_count, Tape};

verus! {

// --- The abstract machine

/// What a machine is made of: its tape, where its head stands and which
/// symbols it may write.
pub struct TmView {
    pub tape: Map<i32, char>,
    pub head: int,
    pub alphabet: Seq<char>,
}

/// The nearest position left of `h` that reads the blank; `None` when the
/// walk would leave the range of positions.
pub open spec fn space_left_of(r: spec_fn(int) -> char, h: int) -> Option<int>
    decreases h - i32::MIN,
{
    if h <= i32::MIN {
        None
    } else if r(h - 1) == SPACE {
        Some(h - 1)
    } else {
        space_left_of(r, h - 1)
    }
}

/// The nearest position right of `h` that reads the blank; `None` when the
/// walk would leave the range of positions.
pub open spec fn space_right_of(r: spec_fn(int) -> char, h: int) -> Option<int>
    decreases i32::MAX - h,
{
    if h >= i32::MAX {
        None
    } else if r(h + 1) == SPACE {
        Some(h + 1)
    } else {
        space_right_of(r, h + 1)
    }
}

/// Where the head stands after moving `n` words to the left from `h`.
pub open spec fn words_left(r: spec_fn(int) -> char, h: int, n: nat) -> Option<int>
    decreases n,
{
    if n == 0 {
        Some(h)
    } else {
        match words_left(r, h, (n - 1) as nat) {
            Some(q) => space_left_of(r, q),
            None => None,
        }
    }
}

/// Where the head stands after moving `n` words to the right from `h`.
pub open spec fn words_right(r: spec_fn(int) -> char, h: int, n: nat) -> Option<int>
    decreases n,
{
    if n == 0 {
        Some(h)
    } else {
        match words_right(r, h, (n - 1) as nat) {
            Some(q) => space_right_of(r, q),
            None => None,
        }
    }
}

/// The symbol under the head.
pub open spec fn read_view(v: TmView) -> char {
    cell(v.tape, v.head)
}

/// The head moved `n` cells left; every cell it passes reads the blank if
/// it was never written.
pub open spec fn left_view(v: TmView, n: int) -> TmView {
    TmView { tape: extend(v.tape, v.head - n, v.head - 1), head: v.head - n, alphabet: v.alphabet }
}

/// The head moved `n` cells right.
pub open spec fn right_view(v: TmView, n: int) -> TmView {
    TmView { tape: extend(v.tape, v.head + 1, v.head + n), head: v.head + n, alphabet: v.alphabet }
}

/// `c` written under the head when the alphabet holds it; nothing otherwise.
pub open spec fn write_view(v: TmView, c: char) -> TmView {
    if v.alphabet.contains(c) {
        TmView { tape: v.tape.insert(v.head as i32, c), ..v }
    } else {
        v
    }
}

/// The head moved `n` words left.
pub open spec fn word_left_view(v: TmView, n: nat) -> TmView {
    match words_left(reads(v.tape), v.head, n) {
        Some(p) => left_view(v, v.head - p),
        None => v,
    }
}

/// The head moved `n` words right.
pub open spec fn word_right_view(v: TmView, n: nat) -> TmView {
    match words_right(reads(v.tape), v.head, n) {
        Some(p) => right_view(v, p - v.head),
        None => v,
    }
}


/// The symbols read on positions `lo .. hi`, `hi` excluded.
pub open spec fn segment(r: spec_fn(int) -> char, lo: int, hi: int) -> Seq<char> {
    Seq::new((hi - lo) as nat, |j: int| r(lo + j))
}

/// The `n` words left of `h`, the farthest first: the symbols between each
/// pair of blanks that a walk of `n` words steps on.
pub open spec fn words_before(r: spec_fn(int) -> char, h: int, n: nat) -> Seq<Seq<char>>
    decreases n,
{
    if n == 0 {
        Seq::empty()
    } else {
        match (words_left(r, h, (n - 1) as nat), words_left(r, h, n)) {
            (Some(q), Some(p)) => seq![segment(r, p + 1, q)] + words_before(r, h, (n - 1) as nat),
            _ => Seq::empty(),
        }
    }
}

/// `w` written symbol by symbol, the head stepping right after each symbol.
pub open spec fn write_word(v: TmView, w: Seq<char>) -> TmView
    decreases w.len(),
{
    if w.len() == 0 {
        v
    } else {
        right_view(write_view(write_word(v, w.drop_last()), w.last()), 1)
    }
}

/// Each word of `ws` written, one blank cell stepped over after each word.
pub open spec fn write_words(v: TmView, ws: Seq<Seq<char>>) -> TmView
    decreases ws.len(),
{
    if ws.len() == 0 {
        v
    } else {
        right_view(write_word(write_words(v, ws.drop_last()), ws.last()), 1)
    }
}

/// How far the head travels while `ws` is written.
pub open spec fn spent(ws: Seq<Seq<char>>) -> nat
    decreases ws.len(),
{
    if ws.len() == 0 {
        0
    } else {
        spent(ws.drop_last()) + ws.last().len() + 1
    }
}

/// The machine after `copy(power)`: the `power` words left of the head are
/// written again, in order and separated by blanks, after the blank that
/// follows the next `power + 1` words to the right of where the walk left
/// ended; the head ends on the blank after the last copied word.
pub open spec fn copy_view(v: TmView, power: nat) -> TmView {
    let v1 = word_left_view(v, power);
    let v2 = word_right_view(v1, power + 1);
    left_view(write_words(v2, words_before(reads(v.tape), v.head, power)), 1)
}

/// `copy(power)` stays inside the range of positions.
pub open spec fn copy_ok(v: TmView, power: nat) -> bool {
    let v1 = word_left_view(v, power);
    &&& words_left(reads(v.tape), v.head, power) is Some
    &&& words_right(reads(v1.tape), v1.head, power + 1) is Some
    &&& word_right_view(v1, power + 1).head + spent(words_before(reads(v.tape), v.head, power))
        <= i32::MAX
}

// --- Lemmas on tapes and walks

/// Filling never-written cells with the blank changes no cell's reading.
pub proof fn lemma_reads_extend(m: Map<i32, char>, lo: int, hi: int)
    ensures
        reads(extend(m, lo, hi)) == reads(m),
{
    assert(reads(extend(m, lo, hi)) =~= reads(m));
}

/// `lo <= k <= hi`.
pub open spec fn within(k: int, lo: int, hi: int) -> bool {
    lo <= k <= hi
}

/// Two fillings over ranges whose union is `lo..=hi` are one filling.
pub proof fn lemma_extend_twice(m: Map<i32, char>, a1: int, b1: int, a2: int, b2: int, lo: int, hi: int)
    requires
        forall|k: int| #[trigger] within(k, lo, hi) <==> (within(k, a1, b1) || within(k, a2, b2)),
    ensures
        extend(extend(m, a1, b1), a2, b2) == extend(m, lo, hi),
{
    assert forall|k: i32| #[trigger] extend(extend(m, a1, b1), a2, b2).contains_key(k)
        == extend(m, lo, hi).contains_key(k) by {
        assert(within(k as int, lo, hi) <==> (within(k as int, a1, b1) || within(k as int, a2, b2)));
    }
    assert(extend(extend(m, a1, b1), a2, b2) =~= extend(m, lo, hi));
}

/// A walk of one word is one search for the nearest blank.
pub proof fn lemma_one_word(r: spec_fn(int) -> char, h: int)
    ensures
        words_left(r, h, 1) == space_left_of(r, h),
        words_right(r, h, 1) == space_right_of(r, h),
{
    reveal_with_fuel(words_left, 2);
    reveal_with_fuel(words_right, 2);
}

/// Filling an empty range changes nothing.
pub proof fn lemma_extend_empty(m: Map<i32, char>, lo: int, hi: int)
    requires
        lo > hi,
    ensures
        extend(m, lo, hi) == m,
{
    assert(extend(m, lo, hi) =~= m);
}

pub proof fn lemma_space_left(r: spec_fn(int) -> char, h: int)
    ensures
        space_left_of(r, h) matches Some(p) ==> {
            &&& i32::MIN <= p < h
            &&& r(p) == SPACE
            &&& forall|q: int| p < q < h ==> #[trigger] r(q) != SPACE
        },
    decreases h - i32::MIN,
{
    if h > i32::MIN && r(h - 1) != SPACE {
        lemma_space_left(r, h - 1);
    }
}

pub proof fn lemma_space_right(r: spec_fn(int) -> char, h: int)
    ensures
        space_right_of(r, h) matches Some(p) ==> {
            &&& h < p <= i32::MAX
            &&& r(p) == SPACE
            &&& forall|q: int| h < q < p ==> #[trigger] r(q) != SPACE
        },
    decreases i32::MAX - h,
{
    if h < i32::MAX && r(h + 1) != SPACE {
        lemma_space_right(r, h + 1);
    }
}

/// A walk of `n` words that stays in range passes through every shorter walk,
/// each one further left than the one before.
pub proof fn lemma_words_left(r: spec_fn(int) -> char, h: int, n: nat, k: nat)
    requires
        k <= n,
        words_left(r, h, n) is Some,
    ensures
        words_left(r, h, k) is Some,
        words_left(r, h, n)->0 <= words_left(r, h, k)->0 <= h,
    decreases n,
{
    if n > 0 {
        let q = words_left(r, h, (n - 1) as nat)->0;
        lemma_space_left(r, q);
        if k < n {
            lemma_words_left(r, h, (n - 1) as nat, k);
        }
        lemma_words_left(r, h, (n - 1) as nat, (n - 1) as nat);
    }
}

pub proof fn lemma_words_right(r: spec_fn(int) -> char, h: int, n: nat, k: nat)
    requires
        k <= n,
        words_right(r, h, n) is Some,
    ensures
        words_right(r, h, k) is Some,
        h <= words_right(r, h, k)->0 <= words_right(r, h, n)->0,
    decreases n,
{
    if n > 0 {
        let q = words_right(r, h, (n - 1) as nat)->0;
        lemma_space_right(r, q);
        if k < n {
            lemma_words_right(r, h, (n - 1) as nat, k);
        }
        lemma_words_right(r, h, (n - 1) as nat, (n - 1) as nat);
    }
}

/// The travel of a prefix of the words is at most the travel of all.
pub proof fn lemma_spent_prefix(ws: Seq<Seq<char>>, k: int)
    requires
        0 <= k <= ws.len(),
    ensures
        spent(ws.take(k)) <= spent(ws),
    decreases ws.len(),
{
    if k < ws.len() {
        assert(ws.drop_last().take(k) =~= ws.take(k));
        lemma_spent_prefix(ws.drop_last(), k);
    } else {
        assert(ws.take(k) =~= ws);
    }
}

/// Writing a word moves the head right by its length and keeps the alphabet.
pub proof fn lemma_write_word_head(v: TmView, w: Seq<char>)
    ensures
        write_word(v, w).head == v.head + w.len(),
        write_word(v, w).alphabet == v.alphabet,
    decreases w.len(),
{
    if w.len() > 0 {
        lemma_write_word_head(v, w.drop_last());
    }
}

/// The deep view of a vector of symbols is its view.
pub proof fn lemma_chars_deep(x: Vec<char>)
    ensures
        x.deep_view() == x@,
{
    assert(x.deep_view() =~= x@);
}

/// Writing words moves the head right by their travel.
pub proof fn lemma_write_words_head(v: TmView, ws: Seq<Seq<char>>)
    ensures
        write_words(v, ws).head == v.head + spent(ws),
    decreases ws.len(),
{
    if ws.len() > 0 {
        lemma_write_words_head(v, ws.drop_last());
        lemma_write_word_head(write_words(v, ws.drop_last()), ws.last());
    }
}

// --- Laws of the basic commands

/// Reading right after writing a symbol of the alphabet gives that symbol
/// and leaves the head where it was; writing a symbol outside the alphabet
/// changes nothing.
pub proof fn lemma_read_after_write(v: TmView, c: char)
    ensures
        v.alphabet.contains(c) ==> read_view(write_view(v, c)) == c && write_view(v, c).head == v.head,
        !v.alphabet.contains(c) ==> write_view(v, c) == v,
{
}

/// Moving the head, by cells or by words, never changes what a cell reads.
pub proof fn lemma_moves_keep_reads(v: TmView, n: nat)
    ensures
        reads(left_view(v, n as int).tape) == reads(v.tape),
        reads(right_view(v, n as int).tape) == reads(v.tape),
        reads(word_left_view(v, n).tape) == reads(v.tape),
        reads(word_right_view(v, n).tape) == reads(v.tape),
{
    lemma_reads_extend(v.tape, v.head - n, v.head - 1);
    lemma_reads_extend(v.tape, v.head + 1, v.head + n);
    let r = reads(v.tape);
    if let Some(p) = words_left(r, v.head, n) {
        lemma_reads_extend(v.tape, p, v.head - 1);
    }
    if let Some(p) = words_right(r, v.head, n) {
        lemma_reads_extend(v.tape, v.head + 1, p);
    }
}

/// Moving the head `n` cells one way and then `n` cells back returns it to
/// where it was, with every cell reading what it read before.
pub proof fn lemma_move_back(v: TmView, n: nat)
    ensures
        right_view(left_view(v, n as int), n as int).head == v.head,
        reads(right_view(left_view(v, n as int), n as int).tape) == reads(v.tape),
        left_view(right_view(v, n as int), n as int).head == v.head,
        reads(left_view(right_view(v, n as int), n as int).tape) == reads(v.tape),
{
    lemma_moves_keep_reads(v, n);
    lemma_moves_keep_reads(left_view(v, n as int), n);
    lemma_moves_keep_reads(right_view(v, n as int), n);
}

/// The words that `copy` collects are the `n` words left of `h`, the
/// farthest first, each read left to right: with `p` the blank reached by
/// `n - i` word steps and `q` the one reached by `n - i - 1`, entry `i`
/// holds the `q - p - 1` symbols between them, symbol `j` being the one at
/// `p + 1 + j`.
pub proof fn lemma_words_before_entries(r: spec_fn(int) -> char, h: int, n: nat)
    requires
        words_left(r, h, n) is Some,
    ensures
        words_before(r, h, n).len() == n,
        forall|i: int| 0 <= i < n ==> (#[trigger] words_before(r, h, n)[i]).len()
            == words_left(r, h, (n - 1 - i) as nat)->0 - words_left(r, h, (n - i) as nat)->0 - 1,
        forall|i: int, j: int|
            0 <= i < n && 0 <= j < words_left(r, h, (n - 1 - i) as nat)->0 - words_left(r, h, (n - i) as nat)->0 - 1
                ==> #[trigger] words_before(r, h, n)[i][j] == r(words_left(r, h, (n - i) as nat)->0 + 1 + j),
    decreases n,
{
    if n > 0 {
        let m = (n - 1) as nat;
        lemma_words_left(r, h, n, m);
        let q = words_left(r, h, m)->0;
        let p = words_left(r, h, n)->0;
        lemma_space_left(r, q);
        lemma_words_before_entries(r, h, m);
        let rest = words_before(r, h, m);
        let w = segment(r, p + 1, q);
        assert(words_before(r, h, n) == seq![w] + rest);
        assert forall|i: int| 0 <= i < n implies (#[trigger] words_before(r, h, n)[i]).len()
            == words_left(r, h, (n - 1 - i) as nat)->0 - words_left(r, h, (n - i) as nat)->0 - 1 by {
            if i > 0 {
                assert(words_before(r, h, n)[i] == rest[i - 1]);
                assert((m - 1 - (i - 1)) as nat == (n - 1 - i) as nat);
                assert((m - (i - 1)) as nat == (n - i) as nat);
            }
        }
        assert forall|i: int, j: int|
            0 <= i < n && 0 <= j < words_left(r, h, (n - 1 - i) as nat)->0 - words_left(r, h, (n - i) as nat)->0 - 1
                implies #[trigger] words_before(r, h, n)[i][j] == r(words_left(r, h, (n - i) as nat)->0 + 1 + j) by {
            if i > 0 {
                assert(words_before(r, h, n)[i] == rest[i - 1]);
                assert((m - 1 - (i - 1)) as nat == (n - 1 - i) as nat);
                assert((m - (i - 1)) as nat == (n - i) as nat);
                assert(rest[i - 1][j] == r(words_left(r, h, (m - (i - 1)) as nat)->0 + 1 + j));
            } else {
                assert(words_before(r, h, n)[0] == w);
                assert(w[j] == r(p + 1 + j));
            }
        }
    }
}

/// Writing a word whose symbols are all in the alphabet puts symbol `j` of
/// it in the cell `j` places right of where the head started, leaves every
/// other cell as it was, and ends with the head right after the word.
pub proof fn lemma_write_word_cells(v: TmView, w: Seq<char>)
    requires
        forall|j: int| 0 <= j < w.len() ==> v.alphabet.contains(#[trigger] w[j]),
        i32::MIN <= v.head,
        v.head + w.len() <= i32::MAX,
    ensures
        write_word(v, w).head == v.head + w.len(),
        write_word(v, w).alphabet == v.alphabet,
        forall|k: int| v.head <= k < v.head + w.len() ==> #[trigger] cell(write_word(v, w).tape, k) == w[k - v.head],
        forall|k: int|
            i32::MIN <= k <= i32::MAX && (k < v.head || v.head + w.len() <= k)
                ==> #[trigger] cell(write_word(v, w).tape, k) == cell(v.tape, k),
    decreases w.len(),
{
    if w.len() > 0 {
        let w0 = w.drop_last();
        let x = w.last();
        assert forall|j: int| 0 <= j < w0.len() implies v.alphabet.contains(#[trigger] w0[j]) by {
            assert(w0[j] == w[j]);
        }
        lemma_write_word_cells(v, w0);
        let u = write_word(v, w0);
        assert(v.alphabet.contains(w[w.len() - 1]));
        let t = u.tape.insert(u.head as i32, x);
        assert(write_view(u, x).tape == t);
        lemma_reads_extend(t, u.head + 1, u.head + 1);
        let fin = write_word(v, w).tape;
        assert(fin == extend(t, u.head + 1, u.head + 1));
        assert forall|k: int| v.head <= k < v.head + w.len() implies #[trigger] cell(fin, k) == w[k - v.head] by {
            assert(reads(fin)(k) == reads(t)(k));
            if k < u.head {
                assert(cell(u.tape, k) == w0[k - v.head]);
                assert((k as i32) != (u.head as i32));
            }
        }
        assert forall|k: int|
            i32::MIN <= k <= i32::MAX && (k < v.head || v.head + w.len() <= k) implies #[trigger] cell(fin, k)
                == cell(v.tape, k) by {
            assert(reads(fin)(k) == reads(t)(k));
            assert((k as i32) != (u.head as i32));
            assert(cell(u.tape, k) == cell(v.tape, k));
        }
    }
}

/// Writing words whose symbols are all in the alphabet puts symbol `j` of
/// word `i` in the cell `spent(ws.take(i)) + j` places right of where the
/// head started, leaves every cell outside the travel as it was, and keeps
/// the alphabet.
pub proof fn lemma_write_words_cells(v: TmView, ws: Seq<Seq<char>>)
    requires
        forall|i: int, j: int| 0 <= i < ws.len() && 0 <= j < ws[i].len() ==> v.alphabet.contains(#[trigger] ws[i][j]),
        i32::MIN <= v.head,
        v.head + spent(ws) <= i32::MAX,
    ensures
        write_words(v, ws).head == v.head + spent(ws),
        write_words(v, ws).alphabet == v.alphabet,
        forall|i: int, j: int| 0 <= i < ws.len() && 0 <= j < ws[i].len()
            ==> cell(write_words(v, ws).tape, v.head + spent(ws.take(i)) + j) == #[trigger] ws[i][j],
        forall|k: int|
            i32::MIN <= k <= i32::MAX && (k < v.head || v.head + spent(ws) <= k)
                ==> #[trigger] cell(write_words(v, ws).tape, k) == cell(v.tape, k),
    decreases ws.len(),
{
    if ws.len() > 0 {
        let n = ws.len() - 1;
        let ws0 = ws.drop_last();
        let x = ws.last();
        assert forall|i: int, j: int| 0 <= i < ws0.len() && 0 <= j < ws0[i].len() implies v.alphabet.contains(
            #[trigger] ws0[i][j],
        ) by {
            assert(ws0[i] == ws[i]);
        }
        lemma_write_words_cells(v, ws0);
        let u = write_words(v, ws0);
        assert forall|j: int| 0 <= j < x.len() implies u.alphabet.contains(#[trigger] x[j]) by {
            assert(x == ws[n]);
            assert(v.alphabet.contains(ws[n][j]));
        }
        lemma_write_word_cells(u, x);
        let t = write_word(u, x);
        lemma_reads_extend(t.tape, t.head + 1, t.head + 1);
        let fin = write_words(v, ws).tape;
        assert(fin == extend(t.tape, t.head + 1, t.head + 1));
        assert forall|i: int, j: int| 0 <= i < ws.len() && 0 <= j < ws[i].len()
            implies cell(fin, v.head + spent(ws.take(i)) + j) == #[trigger] ws[i][j] by {
            let pos = v.head + spent(ws.take(i)) + j;
            assert(reads(fin)(pos) == reads(t.tape)(pos));
            if i < n {
                assert(ws.take(i) =~= ws0.take(i));
                assert(ws0[i] == ws[i]);
                assert(ws0.take(i + 1).drop_last() =~= ws0.take(i));
                assert(ws0.take(i + 1).last() == ws0[i]);
                lemma_spent_prefix(ws0, i + 1);
                lemma_spent_prefix(ws0, i);
                assert(cell(u.tape, pos) == ws0[i][j]);
            } else {
                assert(ws.take(i) =~= ws0);
                assert(ws[i] == x);
            }
        }
        assert forall|k: int|
            i32::MIN <= k <= i32::MAX && (k < v.head || v.head + spent(ws) <= k)
                implies #[trigger] cell(fin, k) == cell(v.tape, k) by {
            assert(reads(fin)(k) == reads(t.tape)(k));
            assert(cell(t.tape, k) == cell(u.tape, k));
        }
    }
}

/// The travel over the first `i` of the words left of `h` is the distance
/// between the blanks that `n - i` and `n` word steps reach.
pub proof fn lemma_words_before_spent(r: spec_fn(int) -> char, h: int, n: nat, i: int)
    requires
        words_left(r, h, n) is Some,
        0 <= i <= n,
    ensures
        spent(words_before(r, h, n).take(i)) == words_left(r, h, (n - i) as nat)->0 - words_left(r, h, n)->0,
    decreases i,
{
    let ws = words_before(r, h, n);
    lemma_words_before_entries(r, h, n);
    if i == 0 {
        assert(ws.take(0).len() == 0);
    } else {
        lemma_words_before_spent(r, h, n, i - 1);
        assert(ws.take(i).drop_last() =~= ws.take(i - 1));
        assert(ws.take(i).last() == ws[i - 1]);
        assert((n - 1 - (i - 1)) as nat == (n - i) as nat);
    }
}

/// A symbol that is no blank and lies between the blank `n` word steps left
/// of `h` and `h` lies in one of the `n` words: the word `i` between the
/// blanks reached by `n - i` and `n - i - 1` steps.
pub proof fn lemma_word_containing(r: spec_fn(int) -> char, h: int, n: nat, k: int) -> (i: int)
    requires
        words_left(r, h, n) is Some,
        words_left(r, h, n)->0 < k < h,
        r(k) != SPACE,
    ensures
        0 <= i < n,
        words_left(r, h, (n - i) as nat)->0 < k < words_left(r, h, (n - 1 - i) as nat)->0,
    decreases n,
{
    let m = (n - 1) as nat;
    lemma_words_left(r, h, n, m);
    let q = words_left(r, h, m)->0;
    if m > 0 {
        lemma_words_left(r, h, m, (m - 1) as nat);
        lemma_space_left(r, words_left(r, h, (m - 1) as nat)->0);
        assert(r(q) == SPACE);
    }
    if k < q {
        assert((n - 0) as nat == n);
        0
    } else {
        let i0 = lemma_word_containing(r, h, m, k);
        assert((n - (i0 + 1)) as nat == (m - i0) as nat);
        assert((n - 1 - (i0 + 1)) as nat == (m - 1 - i0) as nat);
        i0 + 1
    }
}

/// `copy(power)` copies the `power` words left of the head as they stand:
/// with `p` the blank `power` word steps left of the head and `s` where the
/// walk right leaves the head before writing, every symbol other than the
/// blank at a cell `k` between `p` and the head is read again at cell
/// `s + (k - p - 1)`, so the words come in their order and each word reads
/// left to right; the head ends on cell `s + (head - p) - 1`.
pub proof fn lemma_copy_copies_words(v: TmView, power: nat, p: int, s: int)
    requires
        copy_ok(v, power),
        i32::MIN <= v.head <= i32::MAX,
        p == words_left(reads(v.tape), v.head, power)->0,
        s == word_right_view(word_left_view(v, power), power + 1).head,
        forall|k: int| p < k < v.head ==> v.alphabet.contains(#[trigger] cell(v.tape, k)),
    ensures
        copy_view(v, power).head == s + (v.head - p) - 1,
        forall|k: int| p < k < v.head && cell(v.tape, k) != SPACE
            ==> #[trigger] cell(copy_view(v, power).tape, s + (k - p - 1)) == cell(v.tape, k),
{
    let r = reads(v.tape);
    let h = v.head;
    let ws = words_before(r, h, power);
    lemma_words_before_entries(r, h, power);
    lemma_words_left(r, h, power, power);
    let v1 = word_left_view(v, power);
    assert(v1 == left_view(v, h - p));
    lemma_reads_extend(v.tape, p, h - 1);
    let r1 = reads(v1.tape);
    assert(r1 == r);
    lemma_words_right(r1, v1.head, power + 1, 0);
    let v2 = word_right_view(v1, power + 1);
    assert(v2.head == s);
    assert(v2.alphabet == v.alphabet);
    if power > 0 {
        lemma_words_left(r, h, power, (power - 1) as nat);
        lemma_space_left(r, words_left(r, h, (power - 1) as nat)->0);
    }
    assert(p >= i32::MIN);
    assert forall|i: int, j: int| 0 <= i < ws.len() && 0 <= j < ws[i].len() implies v2.alphabet.contains(
        #[trigger] ws[i][j],
    ) by {
        lemma_words_left(r, h, power, (power - i) as nat);
        lemma_words_left(r, h, power, (power - 1 - i) as nat);
        let pi = words_left(r, h, (power - i) as nat)->0;
        assert(ws[i][j] == r(pi + 1 + j));
        assert(v.alphabet.contains(cell(v.tape, pi + 1 + j)));
    }
    lemma_words_before_spent(r, h, power, power as int);
    assert(ws.take(power as int) =~= ws);
    lemma_write_words_cells(v2, ws);
    let wv = write_words(v2, ws);
    lemma_reads_extend(wv.tape, wv.head - 1, wv.head - 1);
    let fin = copy_view(v, power).tape;
    assert(fin == extend(wv.tape, wv.head - 1, wv.head - 1));
    assert forall|k: int| p < k < v.head && cell(v.tape, k) != SPACE
        implies #[trigger] cell(fin, s + (k - p - 1)) == cell(v.tape, k) by {
        assert(r(k) != SPACE);
        let i = lemma_word_containing(r, h, power, k);
        let pi = words_left(r, h, (power - i) as nat)->0;
        let j = k - pi - 1;
        lemma_words_before_spent(r, h, power, i);
        assert(ws[i][j] == r(pi + 1 + j));
        assert(cell(wv.tape, s + spent(ws.take(i)) + j) == ws[i][j]);
        assert(reads(fin)(s + (k - p - 1)) == reads(wv.tape)(s + (k - p - 1)));
    }
}

// --- The machine

/// A Turing machine core: a tape, a head position and an alphabet of the
/// symbols it writes.
#[derive(Debug, Clone)]
pub struct TMCore {
    pub tape: Tape,
    pub head_position: i32,
    pub alphabet: Vec<char>,
}

impl View for TMCore {
    type V = TmView;

    open spec fn view(&self) -> TmView {
        TmView { tape: self.tape@, head: self.head_position as int, alphabet: self.alphabet@ }
    }
}

impl TMCore {
    /// A machine with the given alphabet, an empty tape and the head at 0.
    pub fn new(alphabet: Vec<char>) -> (tm: Self)
        ensures
            tm@ == (TmView { tape: Map::empty(), head: 0, alphabet: alphabet@ }),
    {
        TMCore { tape: Tape::new(), head_position: 0, alphabet }
    }

    /// A machine whose tape holds `tape_str` from position 0 on.
    pub fn with_tape(tape_str: &str, head_position: i32, alphabet: Vec<char>) -> (tm: Self)
        requires
            tape_str@.len() <= 0x8000_0000,
        ensures
            tm@ == (TmView {
                tape: seq_tape(tape_str@),
                head: head_position as int,
                alphabet: alphabet@,
            }),
    {
        let mut chars: Vec<char> = Vec::new();
        for c in it: tape_str.chars()
            invariant
                it.seq() == tape_str@,
                chars@ == tape_str@.take(it.index() as int),
        {
            chars.push(c);
            proof {
                assert(chars@ =~= tape_str@.take(it.index() as int + 1));
            }
        }
        proof {
            assert(chars@ =~= tape_str@);
        }
        TMCore { tape: Tape::from_iter(chars), head_position, alphabet }
    }

    pub fn head_position(&self) -> (h: i32)
        ensures
            h == self.head_position,
    {
        self.head_position
    }

    pub fn alphabet(&self) -> (a: &[char])
        ensures
            a@ == self.alphabet@,
    {
        self.alphabet.as_slice()
    }

    /// The written cells of the tape.
    pub fn tape_items(&self) -> (m: &std::collections::HashMap<i32, char>)
        ensures
            m@ == self.tape@,
    {
        self.tape.items()
    }

    /// Empties the tape.
    pub fn reset_tape(&mut self)
        ensures
            final(self)@ == (TmView { tape: Map::empty(), ..old(self)@ }),
    {
        self.tape.reset_tape();
    }

    /// Writes `ch` at `index` whether or not the alphabet holds it.
    pub fn write_at(&mut self, index: i32, ch: char)
        ensures
            final(self)@ == (TmView { tape: old(self)@.tape.insert(index, ch), ..old(self)@ }),
    {
        self.tape.write(ch, index);
    }

    /// Puts the head at `pos`, filling that cell with the blank if it was
    /// never written.
    pub fn seek(&mut self, pos: i32)
        ensures
            final(self)@ == (TmView {
                tape: extend(old(self)@.tape, pos as int, pos as int),
                head: pos as int,
                ..old(self)@
            }),
    {
        self.tape.extend_tape(pos);
        self.head_position = pos;
    }

    fn alphabet_contains(&self, c: char) -> (r: bool)
        ensures
            r == self.alphabet@.contains(c),
    {
        let mut i: usize = 0;
        while i < self.alphabet.len()
            invariant
                i <= self.alphabet@.len(),
                forall|j: int| 0 <= j < i ==> self.alphabet@[j] != c,
            decreases self.alphabet.len() - i,
        {
            if self.alphabet[i] == c {
                return true;
            }
            i += 1;
        }
        false
    }


    /// Steps one word to the left like `word_left(1)`, handing back the
    /// symbols stepped over, left to right.
    pub(crate) fn take_word_left(&mut self) -> (w: Vec<char>)
        requires
            space_left_of(reads(old(self)@.tape), old(self)@.head) is Some,
        ensures
            final(self)@ == word_left_view(old(self)@, 1),
            w@ == segment(
                reads(old(self)@.tape),
                space_left_of(reads(old(self)@.tape), old(self)@.head)->0 + 1,
                old(self)@.head,
            ),
    {
        let ghost v0 = self@;
        let ghost r = reads(v0.tape);
        let ghost p = space_left_of(r, v0.head)->0;
        proof {
            lemma_space_left(r, v0.head);
            lemma_one_word(r, v0.head);
            lemma_extend_twice(v0.tape, v0.head, v0.head - 1, v0.head - 1, v0.head - 1, v0.head - 1, v0.head - 1);
        }
        self.left(1);
        proof {
            lemma_extend_empty(v0.tape, v0.head, v0.head - 1);
            lemma_reads_extend(v0.tape, v0.head - 1, v0.head - 1);
        }
        let mut word: Vec<char> = Vec::new();
        assert(word@ =~= segment(r, self@.head + 1, v0.head));
        while self.read() != SPACE
            invariant
                i32::MIN <= p <= self@.head < v0.head,
                r == reads(v0.tape),
                r(p) == SPACE,
                forall|q: int| p < q < v0.head ==> #[trigger] r(q) != SPACE,
                self@ == left_view(v0, v0.head - self@.head),
                word@ == segment(r, self@.head + 1, v0.head),
            decreases self@.head - p,
        {
            let c = self.read();
            proof {
                lemma_reads_extend(v0.tape, self@.head, v0.head - 1);
                assert(reads(self@.tape)(self@.head) == c);
            }
            word.insert(0, c);
            let ghost before = self@;
            self.left(1);
            proof {
                lemma_extend_twice(v0.tape, before.head, v0.head - 1, before.head - 1, before.head - 1, before.head - 1, v0.head - 1);
                assert(word@ =~= segment(r, self@.head + 1, v0.head));
            }
        }
        proof {
            lemma_reads_extend(v0.tape, self@.head, v0.head - 1);
            assert(r(self@.head) == SPACE);
        }
        word
    }

    /// Writes `w` symbol by symbol, stepping right after each symbol.
    pub(crate) fn write_word_exec(&mut self, w: &Vec<char>)
        requires
            old(self)@.head + w@.len() <= i32::MAX,
        ensures
            final(self)@ == write_word(old(self)@, w@),
    {
        let ghost v0 = self@;
        let mut j: usize = 0;
        assert(w@.take(0) =~= Seq::<char>::empty());
        while j < w.len()
            invariant
                j <= w@.len(),
                v0.head + w@.len() <= i32::MAX,
                self@ == write_word(v0, w@.take(j as int)),
                self@.head == v0.head + j,
            decreases w.len() - j,
        {
            self.write(w[j]);
            self.right(1);
            proof {
                assert(w@.take(j as int + 1).drop_last() =~= w@.take(j as int));
            }
            j += 1;
        }
        assert(w@.take(w@.len() as int) =~= w@);
    }

    /// Writes each word of `ws`, stepping over one blank after each word.
    fn write_words_exec(&mut self, ws: &Vec<Vec<char>>)
        requires
            old(self)@.head + spent(ws.deep_view()) <= i32::MAX,
        ensures
            final(self)@ == write_words(old(self)@, ws.deep_view()),
    {
        let ghost v0 = self@;
        let ghost dv = ws.deep_view();
        let mut k: usize = 0;
        assert(dv.take(0) =~= Seq::<Seq<char>>::empty());
        while k < ws.len()
            invariant
                k <= ws@.len(),
                dv == ws.deep_view(),
                v0.head + spent(dv) <= i32::MAX,
                self@ == write_words(v0, dv.take(k as int)),
                self@.head == v0.head + spent(dv.take(k as int)),
            decreases ws.len() - k,
        {
            proof {
                assert(dv.take(k as int + 1).drop_last() =~= dv.take(k as int));
                lemma_chars_deep(ws@[k as int]);
                assert(dv[k as int] == ws@[k as int]@);
                lemma_spent_prefix(dv, k as int + 1);
                lemma_write_word_head(self@, dv[k as int]);
            }
            self.write_word_exec(&ws[k]);
            self.right(1);
            k += 1;
        }
        assert(dv.take(ws@.len() as int) =~= dv);
    }

    /// One word to the left: onto the nearest blank left of the head.
    fn word_left_once(&mut self)
        requires
            space_left_of(reads(old(self)@.tape), old(self)@.head) is Some,
        ensures
            final(self)@ == word_left_view(old(self)@, 1),
    {
        let ghost v0 = self@;
        let ghost r = reads(v0.tape);
        let ghost p = space_left_of(r, v0.head)->0;
        proof {
            lemma_space_left(r, v0.head);
            lemma_extend_empty(v0.tape, v0.head, v0.head - 1);
            lemma_one_word(r, v0.head);
        }
        loop
            invariant_except_break
                i32::MIN <= p < self@.head <= v0.head,
                r == reads(v0.tape),
                r(p) == SPACE,
                forall|q: int| p < q < v0.head ==> #[trigger] r(q) != SPACE,
                self@ == left_view(v0, v0.head - self@.head),
                forall|q: int| self@.head <= q < v0.head ==> #[trigger] r(q) != SPACE,
            ensures
                self@ == left_view(v0, v0.head - p),
            decreases self@.head - p,
        {
            let ghost before = self@;
            self.left(1);
            proof {
                lemma_extend_twice(v0.tape, before.head, v0.head - 1, before.head - 1, before.head - 1, before.head - 1, v0.head - 1);
                lemma_reads_extend(v0.tape, before.head - 1, v0.head - 1);
            }
            let c = self.read();
            proof {
                assert(reads(self@.tape)(self@.head) == c);
                assert(r(self@.head) == c);
            }
            if c == SPACE {
                break;
            }
        }
    }

    /// One word to the right: onto the nearest blank right of the head.
    fn word_right_once(&mut self)
        requires
            space_right_of(reads(old(self)@.tape), old(self)@.head) is Some,
        ensures
            final(self)@ == word_right_view(old(self)@, 1),
    {
        let ghost v0 = self@;
        let ghost r = reads(v0.tape);
        let ghost p = space_right_of(r, v0.head)->0;
        proof {
            lemma_space_right(r, v0.head);
            lemma_extend_empty(v0.tape, v0.head + 1, v0.head);
            lemma_one_word(r, v0.head);
        }
        loop
            invariant_except_break
                v0.head <= self@.head < p <= i32::MAX,
                r == reads(v0.tape),
                r(p) == SPACE,
                forall|q: int| v0.head < q < p ==> #[trigger] r(q) != SPACE,
                self@ == right_view(v0, self@.head - v0.head),
                forall|q: int| v0.head < q <= self@.head ==> #[trigger] r(q) != SPACE,
            ensures
                self@ == right_view(v0, p - v0.head),
            decreases p - self@.head,
        {
            let ghost before = self@;
            self.right(1);
            proof {
                lemma_extend_twice(v0.tape, v0.head + 1, before.head, before.head + 1, before.head + 1, v0.head + 1, before.head + 1);
                lemma_reads_extend(v0.tape, v0.head + 1, before.head + 1);
            }
            let c = self.read();
            proof {
                assert(reads(self@.tape)(self@.head) == c);
                assert(r(self@.head) == c);
            }
            if c == SPACE {
                break;
            }
        }
    }
}

impl Default for TMCore {
    /// The machine over blank, `0` and `1` whose tape reads ` 01 `, head at 0.
    fn default() -> (tm: Self)
        ensures
            tm@ == (TmView {
                tape: seq_tape(seq![SPACE, '0', '1', SPACE]),
                head: 0,
                alphabet: seq![SPACE, '0', '1'],
            }),
    {
        let mut chars: Vec<char> = Vec::new();
        chars.push(SPACE);
        chars.push('0');
        chars.push('1');
        chars.push(SPACE);
        let mut alphabet: Vec<char> = Vec::new();
        alphabet.push(SPACE);
        alphabet.push('0');
        alphabet.push('1');
        proof {
            assert(chars@ =~= seq![SPACE, '0', '1', SPACE]);
            assert(alphabet@ =~= seq![SPACE, '0', '1']);
        }
        TMCore { tape: Tape::from_iter(chars), head_position: 0, alphabet }
    }
}

// --- Commands

/// The primitive commands of a tape machine.
pub trait BasicCommands {
    /// The machine these commands act on.
    spec fn machine(&self) -> TmView;

    /// The symbol under the head; the blank where nothing was written.
    fn read(&self) -> (c: char)
        ensures
            c == read_view(self.machine()),
    ;

    /// The symbol at `index`; the blank where nothing was written.
    fn read_index(&self, index: i32) -> (c: char)
        ensures
            c == cell(self.machine().tape, index as int),
    ;

    /// Writes `value` under the head; does nothing if the alphabet lacks it.
    fn write(&mut self, value: char)
        ensures
            final(self).machine() == write_view(old(self).machine(), value),
    ;

    /// Moves the head `power` cells to the left.
    fn left(&mut self, power: u32)
        requires
            old(self).machine().head - power >= i32::MIN,
        ensures
            final(self).machine() == left_view(old(self).machine(), power as int),
    ;

    /// Moves the head `power` cells to the right.
    fn right(&mut self, power: u32)
        requires
            old(self).machine().head + power <= i32::MAX,
        ensures
            final(self).machine() == right_view(old(self).machine(), power as int),
    ;

    /// Moves the head `power` words to the left, stopping on the blank
    /// before each word.
    fn word_left(&mut self, power: u32)
        requires
            words_left(reads(old(self).machine().tape), old(self).machine().head, power as nat) is Some,
        ensures
            final(self).machine() == word_left_view(old(self).machine(), power as nat),
    ;

    /// Moves the head `power` words to the right, stopping on the blank
    /// after each word.
    fn word_right(&mut self, power: u32)
        requires
            words_right(reads(old(self).machine().tape), old(self).machine().head, power as nat) is Some,
        ensures
            final(self).machine() == word_right_view(old(self).machine(), power as nat),
    ;


    /// Copies the `power` words left of the head and writes them again,
    /// in order, after the next `power + 1` words to the right; the head
    /// ends on the blank after the last copy.
    fn copy(&mut self, power: u32)
        requires
            power < u32::MAX,
            copy_ok(old(self).machine(), power as nat),
        ensures
            final(self).machine() == copy_view(old(self).machine(), power as nat),
    ;

    /// Renders the cells of `range`, the head's cell in parentheses when
    /// `include_head` holds; a never-written cell shows lambda, a written
    /// blank shows lambda only when `space_to_lambda` asks for it.
    fn format_tape(&self, range: RangeInclusive<i32>, space_to_lambda: bool, include_head: bool) -> (s: String)
        ensures
            s@ == tape_text(
                self.machine().tape,
                range@.start as int,
                range_count(range@.start, range@.end, range@.exhausted),
                space_to_lambda,
                if include_head {
                    Some(self.machine().head as i32)
                } else {
                    None
                },
            ),
    ;
}

impl BasicCommands for TMCore {
    open spec fn machine(&self) -> TmView {
        self@
    }

    fn read(&self) -> (c: char) {
        self.tape.read_or_space(self.head_position)
    }

    fn read_index(&self, index: i32) -> (c: char) {
        self.tape.read_or_space(index)
    }

    fn write(&mut self, value: char) {
        if self.alphabet_contains(value) {
            self.tape.write(value, self.head_position);
        }
    }

    fn left(&mut self, power: u32) {
        let ghost v0 = self@;
        proof {
            lemma_extend_empty(v0.tape, v0.head, v0.head - 1);
        }
        for i in 0..power
            invariant
                v0.head - power >= i32::MIN,
                self@ == left_view(v0, i as int),
        {
            let dest = self.head_position - 1;
            self.tape.extend_tape(dest);
            self.head_position = dest;
            proof {
                lemma_extend_twice(v0.tape, v0.head - i, v0.head - 1, dest as int, dest as int, dest as int, v0.head - 1);
            }
        }
    }

    fn right(&mut self, power: u32) {
        let ghost v0 = self@;
        proof {
            lemma_extend_empty(v0.tape, v0.head + 1, v0.head);
        }
        for i in 0..power
            invariant
                v0.head + power <= i32::MAX,
                self@ == right_view(v0, i as int),
        {
            let dest = self.head_position + 1;
            self.tape.extend_tape(dest);
            self.head_position = dest;
            proof {
                lemma_extend_twice(v0.tape, v0.head + 1, v0.head + i, dest as int, dest as int, v0.head + 1, dest as int);
            }
        }
    }

    fn word_left(&mut self, power: u32) {
        let ghost v0 = self@;
        let ghost r = reads(v0.tape);
        proof {
            lemma_extend_empty(v0.tape, v0.head, v0.head - 1);
        }
        for i in 0..power
            invariant
                r == reads(v0.tape),
                words_left(r, v0.head, power as nat) is Some,
                self@ == word_left_view(v0, i as nat),
        {
            proof {
                lemma_words_left(r, v0.head, power as nat, i as nat);
                lemma_words_left(r, v0.head, power as nat, (i + 1) as nat);
                lemma_words_left(r, v0.head, (i + 1) as nat, i as nat);
                lemma_one_word(r, words_left(r, v0.head, i as nat)->0);
                lemma_reads_extend(v0.tape, words_left(r, v0.head, i as nat)->0, v0.head - 1);
            }
            let ghost before = self@;
            self.word_left_once();
            proof {
                let p = words_left(r, v0.head, (i + 1) as nat)->0;
                lemma_extend_twice(v0.tape, before.head, v0.head - 1, p, before.head - 1, p, v0.head - 1);
            }
        }
    }

    fn word_right(&mut self, power: u32) {
        let ghost v0 = self@;
        let ghost r = reads(v0.tape);
        proof {
            lemma_extend_empty(v0.tape, v0.head + 1, v0.head);
        }
        for i in 0..power
            invariant
                r == reads(v0.tape),
                words_right(r, v0.head, power as nat) is Some,
                self@ == word_right_view(v0, i as nat),
        {
            proof {
                lemma_words_right(r, v0.head, power as nat, i as nat);
                lemma_words_right(r, v0.head, power as nat, (i + 1) as nat);
                lemma_words_right(r, v0.head, (i + 1) as nat, i as nat);
                lemma_one_word(r, words_right(r, v0.head, i as nat)->0);
                lemma_reads_extend(v0.tape, v0.head + 1, words_right(r, v0.head, i as nat)->0);
            }
            let ghost before = self@;
            self.word_right_once();
            proof {
                let p = words_right(r, v0.head, (i + 1) as nat)->0;
                lemma_extend_twice(v0.tape, v0.head + 1, before.head, before.head + 1, p, v0.head + 1, p);
            }
        }
    }


    fn copy(&mut self, power: u32) {
        let ghost v0 = self@;
        let ghost r = reads(v0.tape);
        let mut words: Vec<Vec<char>> = Vec::new();
        proof {
            lemma_extend_empty(v0.tape, v0.head, v0.head - 1);
            assert(words.deep_view() =~= words_before(r, v0.head, 0));
        }
        for i in 0..power
            invariant
                r == reads(v0.tape),
                words_left(r, v0.head, power as nat) is Some,
                self@ == word_left_view(v0, i as nat),
                words.deep_view() == words_before(r, v0.head, i as nat),
        {
            proof {
                lemma_words_left(r, v0.head, power as nat, i as nat);
                lemma_words_left(r, v0.head, power as nat, (i + 1) as nat);
                lemma_words_left(r, v0.head, (i + 1) as nat, i as nat);
                lemma_one_word(r, words_left(r, v0.head, i as nat)->0);
                lemma_reads_extend(v0.tape, words_left(r, v0.head, i as nat)->0, v0.head - 1);
            }
            let ghost before = self@;
            let ghost old_words = words.deep_view();
            let ghost old_vec = words@;
            let word = self.take_word_left();
            let ghost wv = word@;
            words.insert(0, word);
            proof {
                assert forall|j: int| 0 <= j < words@.len() implies #[trigger] words.deep_view()[j]
                    == (seq![wv] + old_words)[j] by {
                    lemma_chars_deep(words@[j]);
                    if j > 0 {
                        assert(words@[j] == old_vec[j - 1]);
                        lemma_chars_deep(old_vec[j - 1]);
                    }
                }
                let p = words_left(r, v0.head, (i + 1) as nat)->0;
                lemma_extend_twice(v0.tape, before.head, v0.head - 1, p, before.head - 1, p, v0.head - 1);
                assert(words.deep_view() =~= seq![wv] + old_words);
            }
        }
        let ghost v1 = self@;
        proof {
            lemma_words_right(reads(v1.tape), v1.head, (power + 1) as nat, 1);
            lemma_one_word(reads(v1.tape), v1.head);
            lemma_space_right(reads(v1.tape), v1.head);
            lemma_words_left(r, v0.head, power as nat, power as nat);
        }
        self.word_right(power + 1);
        let ghost v2 = self@;
        self.write_words_exec(&words);
        proof {
            lemma_write_words_head(v2, words.deep_view());
        }
        self.left(1);
    }


    fn format_tape(&self, range: RangeInclusive<i32>, space_to_lambda: bool, include_head: bool) -> (s: String) {
        let head = if include_head {
            Some(self.head_position)
        } else {
            None
        };
        self.tape.format_tape(range, space_to_lambda, head)
    }
}

} // verus!
