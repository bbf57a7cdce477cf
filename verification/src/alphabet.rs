use vstd::prelude::*;

use crate::glyphs::SPACE;

verus! {

/// The symbols an alphabet may hold: the blank, `\ ( ) | ! @ # % ^ & * - + = _ / ?`,
/// the digits and the Latin letters.
pub open spec fn allowed_char(c: char) -> bool {
    let u = c as u32;
    ||| c == ' ' || c == '\\' || c == '(' || c == ')' || c == '|' || c == '!'
    ||| c == '@' || c == '#' || c == '%' || c == '^' || c == '&' || c == '*'
    ||| c == '-' || c == '+' || c == '=' || c == '_' || c == '/' || c == '?'
    ||| 0x30 <= u <= 0x39
    ||| 0x41 <= u <= 0x5a
    ||| 0x61 <= u <= 0x7a
}

/// Why a sequence of symbols is no alphabet.
#[derive(Debug, Clone, Copy, PartialEq, Eq, Structural)]
pub enum AlphabetCreationError {
    CharacterNotAllowed,
    AlphabetDoesNotHaveLambda,
    AlphabetTooSmall,
    DuplicatedCharacters,
}

impl AlphabetCreationError {
    /// The message that explains the error to a user.
    pub fn message(&self) -> (m: &'static str)
        ensures
            m@ == match self {
                AlphabetCreationError::CharacterNotAllowed => "Selected character not allowed."@,
                AlphabetCreationError::AlphabetDoesNotHaveLambda => "Every alphabet must include lambda (space) character."@,
                AlphabetCreationError::AlphabetTooSmall => "Every alphabet should consist of at least two character, one of which has to be lambda (space)."@,
                AlphabetCreationError::DuplicatedCharacters => "Alphabet has duplicated characters."@,
            },
    {
        match self {
            AlphabetCreationError::CharacterNotAllowed => "Selected character not allowed.",
            AlphabetCreationError::AlphabetDoesNotHaveLambda => "Every alphabet must include lambda (space) character.",
            AlphabetCreationError::AlphabetTooSmall => "Every alphabet should consist of at least two character, one of which has to be lambda (space).",
            AlphabetCreationError::DuplicatedCharacters => "Alphabet has duplicated characters.",
        }
    }
}

/// The first fault met when the symbols are checked one after another: a
/// symbol outside the allowed set, or one met before.
pub open spec fn scan_fault(s: Seq<char>) -> Option<AlphabetCreationError>
    decreases s.len(),
{
    if s.len() == 0 {
        None
    } else {
        match scan_fault(s.drop_last()) {
            Some(e) => Some(e),
            None => if !allowed_char(s.last()) {
                Some(AlphabetCreationError::CharacterNotAllowed)
            } else if s.drop_last().contains(s.last()) {
                Some(AlphabetCreationError::DuplicatedCharacters)
            } else {
                None
            },
        }
    }
}

/// Why `s` is no alphabet, if it is none: fewer than two symbols, then the
/// first faulty symbol, then a missing blank.
pub open spec fn alphabet_fault(s: Seq<char>) -> Option<AlphabetCreationError> {
    if s.len() < 2 {
        Some(AlphabetCreationError::AlphabetTooSmall)
    } else {
        match scan_fault(s) {
            Some(e) => Some(e),
            None => if s.contains(SPACE) {
                None
            } else {
                Some(AlphabetCreationError::AlphabetDoesNotHaveLambda)
            },
        }
    }
}

/// An alphabet: at least two distinct allowed symbols, the blank among them.
#[derive(Debug)]
pub struct ValidatedAlphabet {
    characters: Vec<char>,
}

impl View for ValidatedAlphabet {
    type V = Seq<char>;

    closed spec fn view(&self) -> Seq<char> {
        self.characters@
    }
}

impl ValidatedAlphabet {
    #[verifier::type_invariant]
    spec fn well_formed(&self) -> bool {
        alphabet_fault(self.characters@) is None
    }

    /// Checks `alphabet` and keeps its symbols, in order, when it is one.
    pub fn new(alphabet: Vec<char>) -> (r: Result<Self, AlphabetCreationError>)
        ensures
            r is Ok <==> alphabet_fault(alphabet@) is None,
            r matches Ok(a) ==> a@ == alphabet@,
            r matches Err(e) ==> alphabet_fault(alphabet@) == Some(e),
    {
        let total_len = alphabet.len();
        if total_len < 2 {
            return Err(AlphabetCreationError::AlphabetTooSmall);
        }
        let mut has_space = false;
        let mut i: usize = 0;
        while i < total_len
            invariant
                total_len == alphabet@.len(),
                2 <= total_len,
                i <= total_len,
                scan_fault(alphabet@.take(i as int)) is None,
                has_space == alphabet@.take(i as int).contains(SPACE),
            decreases total_len - i,
        {
            let c = alphabet[i];
            let ghost prefix = alphabet@.take(i as int);
            proof {
                assert(alphabet@.take(i as int + 1).drop_last() =~= prefix);
                assert(alphabet@.take(i as int + 1).last() == c);
            }
            if c == SPACE {
                has_space = true;
            }
            if !is_allowed(c) {
                proof {
                    assert(scan_fault(alphabet@.take(i as int + 1)) == Some(AlphabetCreationError::CharacterNotAllowed));
                    lemma_scan_fault_prefix(alphabet@, i as int + 1);
                }
                return Err(AlphabetCreationError::CharacterNotAllowed);
            }
            let mut j: usize = 0;
            while j < i
                invariant
                    j <= i < total_len == alphabet@.len(),
                    2 <= total_len,
                    c == alphabet@[i as int],
                    allowed_char(c),
                    prefix == alphabet@.take(i as int),
                    scan_fault(prefix) is None,
                    alphabet@.take(i as int + 1).drop_last() == prefix,
                    alphabet@.take(i as int + 1).last() == c,
                    forall|k: int| 0 <= k < j ==> alphabet@[k] != c,
                decreases i - j,
            {
                if alphabet[j] == c {
                    proof {
                        assert(prefix[j as int] == c);
                        assert(prefix.contains(c));
                        assert(scan_fault(alphabet@.take(i as int + 1)) == Some(AlphabetCreationError::DuplicatedCharacters));
                        lemma_scan_fault_prefix(alphabet@, i as int + 1);
                    }
                    return Err(AlphabetCreationError::DuplicatedCharacters);
                }
                j += 1;
            }
            proof {
                assert(!prefix.contains(c));
                assert(alphabet@.take(i as int + 1) =~= prefix.push(c));
            }
            i += 1;
        }
        proof {
            assert(alphabet@.take(total_len as int) =~= alphabet@);
        }
        if !has_space {
            return Err(AlphabetCreationError::AlphabetDoesNotHaveLambda);
        }
        Ok(ValidatedAlphabet { characters: alphabet })
    }

    /// A copy of the symbols, in order.
    pub fn clone_iter(&self) -> (v: Vec<char>)
        ensures
            v@ == self@,
            alphabet_fault(v@) is None,
    {
        proof {
            use_type_invariant(self);
        }
        let v = self.characters.clone();
        assert(v@ =~= self.characters@);
        v
    }

    /// The symbols, in order.
    pub fn iter(&self) -> (s: &[char])
        ensures
            s@ == self@,
            alphabet_fault(s@) is None,
    {
        proof {
            use_type_invariant(self);
        }
        self.characters.as_slice()
    }
}

impl Clone for ValidatedAlphabet {
    fn clone(&self) -> (r: Self)
        ensures
            r@ == self@,
    {
        proof {
            use_type_invariant(self);
        }
        let characters = self.characters.clone();
        assert(characters@ =~= self.characters@);
        ValidatedAlphabet { characters }
    }
}

/// Once a prefix shows a fault, the whole sequence shows that same fault.
pub proof fn lemma_scan_fault_prefix(s: Seq<char>, k: int)
    requires
        0 <= k <= s.len(),
        scan_fault(s.take(k)) is Some,
    ensures
        scan_fault(s) == scan_fault(s.take(k)),
    decreases s.len() - k,
{
    if k < s.len() {
        assert(s.take(k + 1).drop_last() =~= s.take(k));
        lemma_scan_fault_prefix(s, k + 1);
    } else {
        assert(s.take(k) =~= s);
    }
}

/// Whether `c` is one of the symbols an alphabet may hold.
pub fn is_allowed(c: char) -> (b: bool)
    ensures
        b == allowed_char(c),
{
    let u = c as u32;
    c == ' ' || c == '\\' || c == '(' || c == ')' || c == '|' || c == '!' || c == '@' || c == '#'
        || c == '%' || c == '^' || c == '&' || c == '*' || c == '-' || c == '+' || c == '='
        || c == '_' || c == '/' || c == '?' || (0x30 <= u && u <= 0x39) || (0x41 <= u && u
        <= 0x5a) || (0x61 <= u && u <= 0x7a)
}

/// Exactly these symbols may stand in an alphabet: the blank, the marks
/// `\ ( ) | ! @ # % ^ & * - + = _ / ?`, the digits `0` to `9`, the capital
/// letters `A` to `Z` and the small letters `a` to `z`.
pub proof fn lemma_allowed_symbols(c: char)
    ensures
        allowed_char(c) <==> {
            ||| c == ' ' || c == '\\' || c == '(' || c == ')' || c == '|' || c == '!'
            ||| c == '@' || c == '#' || c == '%' || c == '^' || c == '&' || c == '*'
            ||| c == '-' || c == '+' || c == '=' || c == '_' || c == '/' || c == '?'
            ||| '0' <= c <= '9'
            ||| 'A' <= c <= 'Z'
            ||| 'a' <= c <= 'z'
        },
{
}

/// The blank and two distinct letters or digits, of either case, make an
/// alphabet: `ValidatedAlphabet::new` accepts them.
pub proof fn lemma_letters_make_alphabet(c: char, d: char)
    requires
        '0' <= c <= '9' || 'A' <= c <= 'Z' || 'a' <= c <= 'z',
        '0' <= d <= '9' || 'A' <= d <= 'Z' || 'a' <= d <= 'z',
        c != d,
    ensures
        alphabet_fault(seq![SPACE, c, d]) is None,
{
    let s = seq![SPACE, c, d];
    assert(s.drop_last() =~= seq![SPACE, c]);
    assert(s.drop_last().drop_last() =~= seq![SPACE]);
    assert(s.drop_last().drop_last().drop_last() =~= Seq::<char>::empty());
    assert(!seq![SPACE].contains(c));
    assert(!seq![SPACE, c].contains(d)) by {
        if seq![SPACE, c].contains(d) {
            let j = choose|j: int| 0 <= j < 2 && seq![SPACE, c][j] == d;
            assert(j == 0 || j == 1);
        }
    }
    assert(seq![SPACE].drop_last() =~= Seq::<char>::empty());
    assert(seq![SPACE, c].drop_last() =~= seq![SPACE]);
    assert(allowed_char(SPACE));
    assert(scan_fault(Seq::<char>::empty()) is None);
    assert(seq![SPACE].last() == SPACE);
    assert(!Seq::<char>::empty().contains(SPACE));
    assert(scan_fault(seq![SPACE]) is None);
    assert(scan_fault(seq![SPACE, c]) is None);
    assert(scan_fault(s) is None);
    assert(s[0] == SPACE);
}

} // verus!
