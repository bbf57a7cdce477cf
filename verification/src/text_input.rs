use vstd::prelude::*;

use crate::glyphs::{push_char, LAMBDA, SPACE};

verus! {

/// How a kept character is shown: the blank as lambda, anything else as itself.
pub open spec fn shown_char(c: char) -> char {
    if c == SPACE {
        LAMBDA
    } else {
        c
    }
}

/// A character typed into a symbol field is kept when it belongs to the
/// alphabet or is the lambda glyph; it is then shown by `shown_char`.
pub open spec fn kept_shown(alphabet: Seq<char>, c: char) -> Option<char> {
    if alphabet.contains(c) || c == LAMBDA {
        Some(shown_char(c))
    } else {
        None
    }
}

/// What `formatted_buffer` makes of a buffer.
pub open spec fn formatted_seq(alphabet: Seq<char>, buffer: Seq<char>) -> Seq<char> {
    buffer.filter_map(keeper(alphabet))
}

/// The per-character rule of `formatted_seq` as a function value.
pub open spec fn keeper(alphabet: Seq<char>) -> spec_fn(char) -> Option<char> {
    |c: char| kept_shown(alphabet, c)
}

/// The character a displayed glyph stands for on the tape.
pub open spec fn loaded_char(c: char) -> char {
    if c == LAMBDA {
        SPACE
    } else {
        c
    }
}

/// A symbol other than the lambda glyph that is shown in a field loads back
/// as itself; the blank, shown as lambda, loads back as the blank.
pub proof fn lemma_load_shown(c: char)
    requires
        c != LAMBDA,
    ensures
        loaded_char(shown_char(c)) == c,
{
}

fn format_char(c: char) -> (r: char)
    ensures
        r == shown_char(c),
{
    if c == SPACE {
        LAMBDA
    } else {
        c
    }
}

fn vec_contains_char(v: &Vec<char>, c: char) -> (r: bool)
    ensures
        r == v@.contains(c),
{
    let mut i: usize = 0;
    while i < v.len()
        invariant
            i <= v.len(),
            forall|j: int| 0 <= j < i ==> v@[j] != c,
        decreases v.len() - i,
    {
        if v[i] == c {
            return true;
        }
        i += 1;
    }
    false
}

/// Keeps the characters of `buffer` that are in `alphabet` or are lambda,
/// showing the blank as lambda.
pub fn formatted_buffer(alphabet: &Vec<char>, buffer: &String) -> (r: String)
    ensures
        r@ == formatted_seq(alphabet@, buffer@),
{
    let mut out = String::new();
    for c in it: buffer.as_str().chars()
        invariant
            it.seq() == buffer@,
            out@ == formatted_seq(alphabet@, buffer@.take(it.index() as int)),
    {
        let ghost i = it.index() as int;
        proof {
            buffer@.lemma_filter_map_take_succ(keeper(alphabet@), i);
            assert(buffer@[i] == c);
        }
        if vec_contains_char(alphabet, c) || c == LAMBDA {
            push_char(&mut out, format_char(c));
            assert(out@ =~= formatted_seq(alphabet@, buffer@.take(i + 1)));
        } else {
            assert(out@ =~= formatted_seq(alphabet@, buffer@.take(i + 1)));
        }
    }
    proof {
        assert(buffer@.take(buffer@.len() as int) =~= buffer@);
    }
    out
}

/// Turns every lambda glyph of `buffer` back into the blank.
pub fn buffer_to_load(buffer: &String) -> (r: String)
    ensures
        r@ == buffer@.map_values(|c: char| loaded_char(c)),
{
    let mut out = String::new();
    for c in it: buffer.as_str().chars()
        invariant
            it.seq() == buffer@,
            out@ == buffer@.take(it.index() as int).map_values(|c: char| loaded_char(c)),
    {
        let d = if c == LAMBDA {
            SPACE
        } else {
            c
        };
        push_char(&mut out, d);
        proof {
            assert(buffer@.take(it.index() as int + 1).map_values(|c: char| loaded_char(c))
                =~= buffer@.take(it.index() as int).map_values(|c: char| loaded_char(c)).push(
                d,
            ));
        }
    }
    proof {
        assert(buffer@.take(buffer@.len() as int) =~= buffer@);
    }
    out
}

} // verus!
