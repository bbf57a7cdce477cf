//! The node options window: reading a power or a symbol typed by the user
//! and explaining a node's problems.

use vstd::prelude::*;

use crate::glyphs::{push_char, SPACE};
use crate::text_input::{buffer_to_load, loaded_char};
use crate::tm::{Action, NodeProblem};

verus! {

/// Whether `c` is one of the ASCII digits `0` to `9`.
pub open spec fn is_digit(c: char) -> bool {
    '0' <= c && c <= '9'
}

/// The number that the decimal digits `s` write.
pub open spec fn digits_value(s: Seq<char>) -> nat
    decreases s.len(),
{
    if s.len() == 0 {
        0
    } else {
        digits_value(s.drop_last()) * 10 + (s.last() as nat - '0' as nat) as nat
    }
}

/// The power that the digits `s` give: their number when it is at least 1
/// and fits in a `u32`; 1 when there are no digits, the number is 0 or it
/// does not fit.
pub open spec fn power_of(s: Seq<char>) -> u32 {
    if s.len() == 0 || digits_value(s) > u32::MAX || digits_value(s) == 0 {
        1
    } else {
        digits_value(s) as u32
    }
}

/// More digits never write a smaller number.
proof fn lemma_digits_grow(s: Seq<char>, k: int)
    requires
        0 <= k <= s.len(),
        forall|i: int| 0 <= i < s.len() ==> is_digit(#[trigger] s[i]),
    ensures
        digits_value(s.take(k)) <= digits_value(s),
    decreases s.len() - k,
{
    if k < s.len() {
        let t = s.take(k + 1);
        assert(t.drop_last() =~= s.take(k));
        assert(t.last() == s[k]);
        assert(is_digit(s[k]));
        lemma_digits_grow(s, k + 1);
    } else {
        assert(s.take(k) =~= s);
    }
}

/// Keeps the ASCII digits of `value`, in order.
pub fn retain_digits(value: &String) -> (r: String)
    ensures
        r@ == value@.filter(|c: char| is_digit(c)),
{
    let mut out = String::new();
    for c in it: value.as_str().chars()
        invariant
            it.seq() == value@,
            out@ == value@.take(it.index() as int).filter(|c: char| is_digit(c)),
    {
        let ghost i = it.index() as int;
        proof {
            assert(value@.take(i + 1) =~= value@.take(i).push(c));
            value@.take(i).lemma_filter_push(c, |c: char| is_digit(c));
        }
        if '0' <= c && c <= '9' {
            push_char(&mut out, c);
        }
    }
    proof {
        assert(value@.take(value@.len() as int) =~= value@);
    }
    out
}

/// The power that the digits typed into the power field give
/// (`power_of`).
pub fn parse_power(digits: &String) -> (p: u32)
    requires
        forall|i: int| 0 <= i < digits@.len() ==> is_digit(#[trigger] digits@[i]),
    ensures
        p == power_of(digits@),
        p >= 1,
{
    let mut acc: u64 = 0;
    let mut any = false;
    for c in it: digits.as_str().chars()
        invariant
            it.seq() == digits@,
            forall|i: int| 0 <= i < digits@.len() ==> is_digit(#[trigger] digits@[i]),
            acc == digits_value(digits@.take(it.index() as int)),
            acc <= u32::MAX,
            any == (it.index() > 0),
    {
        let ghost i = it.index() as int;
        proof {
            assert(digits@[i] == c);
            assert(is_digit(digits@[i]));
            assert(digits@.take(i + 1).drop_last() =~= digits@.take(i));
            assert(digits@.take(i + 1).last() == c);
        }
        let d = (c as u32 - '0' as u32) as u64;
        acc = acc * 10 + d;
        any = true;
        if acc > 0xffff_ffff {
            proof {
                lemma_digits_grow(digits@, i + 1);
            }
            return 1;
        }
    }
    proof {
        assert(digits@.take(digits@.len() as int) =~= digits@);
    }
    if !any || acc == 0 {
        1
    } else {
        acc as u32
    }
}

/// Sets the power of a move node; any other node is left as it is.
pub fn set_power(action: &mut Action, power: u32)
    ensures
        *final(action) == (match *old(action) {
            Action::Left(_) => Action::Left(power),
            Action::Right(_) => Action::Right(power),
            other => other,
        }),
{
    match action {
        Action::Left(p) => {
            *p = power;
        },
        Action::Right(p) => {
            *p = power;
        },
        _ => {},
    }
}

/// The symbol that the text of the symbol field stands for: its first
/// character, lambda read as the blank; the blank when the field is empty.
pub fn sign_from_text(value: &String) -> (c: char)
    ensures
        c == (if value@.len() > 0 {
            loaded_char(value@[0])
        } else {
            SPACE
        }),
{
    let loaded = buffer_to_load(value);
    for c in it: loaded.as_str().chars()
        invariant
            it.seq() == loaded@,
            it.index() == 0,
            loaded@ == value@.map_values(|c: char| loaded_char(c)),
    {
        assert(loaded@[0] == c);
        assert(value@.len() > 0);
        assert(loaded@[0] == loaded_char(value@[0]));
        return c;
    }
    SPACE
}

/// The explanation of a node's problem that the options window shows.
pub fn problem_message(problem: &NodeProblem) -> (s: String)
    ensures
        s@ == match *problem {
            NodeProblem::NotAvailable => "Node is not connected to any other node"@,
            NodeProblem::StartNodeIncoming => "Start node can't have incoming transitions"@,
            NodeProblem::EndNodeOutgoing => "End node cant' have outgoing transitions"@,
            NodeProblem::MissingTransition(c) => "Missing transition for '"@ + seq![c, '\''],
            NodeProblem::AmbiguousTransition(c) => "Ambiguous transition for '"@ + seq![c, '\''],
        },
{
    match problem {
        NodeProblem::NotAvailable => "Node is not connected to any other node".to_string(),
        NodeProblem::StartNodeIncoming => "Start node can't have incoming transitions".to_string(),
        NodeProblem::EndNodeOutgoing => "End node cant' have outgoing transitions".to_string(),
        NodeProblem::MissingTransition(c) => {
            let mut s = "Missing transition for '".to_string();
            push_char(&mut s, *c);
            push_char(&mut s, '\'');
            assert(s@ =~= "Missing transition for '"@ + seq![*c, '\'']);
            s
        },
        NodeProblem::AmbiguousTransition(c) => {
            let mut s = "Ambiguous transition for '".to_string();
            push_char(&mut s, *c);
            push_char(&mut s, '\'');
            assert(s@ =~= "Ambiguous transition for '"@ + seq![*c, '\'']);
            s
        },
    }
}

} // verus!
