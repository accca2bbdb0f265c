//! Text in lines and fields: the pieces between separators, the lines of a
//! text, the words of a line, and decimal numbers.

use vstd::prelude::*;
use vstd::string::*;
use crate::text::{chars_of, names_of};

verus! {

/// What parts a text into pieces: one character, or any white space.
#[derive(Clone, Copy, PartialEq, Eq, Debug, Structural)]
pub enum Separator {
    Is(char),
    Whitespace,
}

/// The character is white space: a tab, a line feed, a vertical tab, a form
/// feed, a carriage return, a space, or one of the other space and line
/// separators of Unicode.
pub open spec fn is_space(c: char) -> bool {
    let v = c as u32;
    (0x09 <= v <= 0x0D) || v == 0x20 || v == 0x85 || v == 0xA0 || v == 0x1680 || (0x2000 <= v
        <= 0x200A) || v == 0x2028 || v == 0x2029 || v == 0x202F || v == 0x205F || v == 0x3000
}

impl Separator {
    /// The character is a separator.
    pub open spec fn separates(self, c: char) -> bool {
        match self {
            Separator::Is(s) => c == s,
            Separator::Whitespace => is_space(c),
        }
    }

    /// Whether the character is a separator.
    pub fn parts(&self, c: char) -> (yes: bool)
        ensures
            yes == self.separates(c),
    {
        match self {
            Separator::Is(s) => c == *s,
            Separator::Whitespace => {
                let v: u32 = c as u32;
                (0x09 <= v && v <= 0x0D) || v == 0x20 || v == 0x85 || v == 0xA0 || v == 0x1680
                    || (0x2000 <= v && v <= 0x200A) || v == 0x2028 || v == 0x2029 || v == 0x202F
                    || v == 0x205F || v == 0x3000
            },
        }
    }
}

/// The pieces of a text between its separators, in order. There is one
/// piece more than there are separators; a piece is empty where two
/// separators meet and where the text begins or ends with one.
pub open spec fn pieces(text: Seq<char>, sep: Separator) -> Seq<Seq<char>>
    decreases text.len(),
{
    if text.len() == 0 {
        seq![Seq::empty()]
    } else {
        let front = pieces(text.drop_last(), sep);
        if sep.separates(text.last()) {
            front.push(Seq::empty())
        } else {
            front.update(front.len() - 1, front.last().push(text.last()))
        }
    }
}

/// A text has at least one piece.
pub proof fn lemma_pieces_exist(text: Seq<char>, sep: Separator)
    ensures
        pieces(text, sep).len() >= 1,
    decreases text.len(),
{
    if text.len() > 0 {
        lemma_pieces_exist(text.drop_last(), sep);
    }
}

/// No piece holds a separator.
pub proof fn lemma_pieces_hold_no_separator(text: Seq<char>, sep: Separator)
    ensures
        forall|k: int, i: int|
            0 <= k < pieces(text, sep).len() && 0 <= i < pieces(text, sep)[k].len()
                ==> !sep.separates(#[trigger] pieces(text, sep)[k][i]),
    decreases text.len(),
{
    if text.len() > 0 {
        lemma_pieces_exist(text.drop_last(), sep);
        lemma_pieces_hold_no_separator(text.drop_last(), sep);
    }
}

/// The pieces of a text between its separators.
pub fn split(text: &str, sep: Separator) -> (parts: Vec<String>)
    ensures
        names_of(parts@) == pieces(text@, sep),
{
    let chars = chars_of(text);
    let mut parts: Vec<String> = Vec::new();
    let mut start: usize = 0;
    let mut i: usize = 0;
    proof {
        assert(text@.take(0) =~= Seq::<char>::empty());
        assert(names_of(parts@).push(text@.subrange(0, 0)) =~= pieces(text@.take(0), sep));
    }
    while i < chars.len()
        invariant
            chars@ == text@,
            start <= i <= chars.len(),
            names_of(parts@).push(text@.subrange(start as int, i as int)) == pieces(
                text@.take(i as int),
                sep,
            ),
        decreases chars.len() - i,
    {
        let ghost done = names_of(parts@);
        let ghost open = text@.subrange(start as int, i as int);
        proof {
            assert(text@.take(i + 1).drop_last() =~= text@.take(i as int));
            assert(text@.take(i + 1).last() == text@[i as int]);
        }
        if sep.parts(chars[i]) {
            let piece = text.substring_char(start, i);
            parts.push(String::from_str(piece));
            start = i + 1;
            proof {
                assert(names_of(parts@) =~= done.push(open));
                assert(text@.subrange(start as int, i + 1) =~= Seq::<char>::empty());
            }
        } else {
            proof {
                assert(text@.subrange(start as int, i + 1) =~= open.push(text@[i as int]));
                assert(done.push(open).update(done.len() as int, open.push(text@[i as int]))
                    =~= done.push(open.push(text@[i as int])));
            }
        }
        i += 1;
    }
    let ghost done = names_of(parts@);
    let piece = text.substring_char(start, i);
    parts.push(String::from_str(piece));
    proof {
        assert(text@.take(i as int) =~= text@);
        assert(names_of(parts@) =~= done.push(text@.subrange(start as int, i as int)));
    }
    parts
}

/// The words of a text: its pieces between white space that are not empty.
pub open spec fn words_of(text: Seq<char>) -> Seq<Seq<char>> {
    pieces(text, Separator::Whitespace).filter(|piece: Seq<char>| piece.len() > 0)
}

/// The words of a text.
pub fn words(text: &str) -> (found: Vec<String>)
    ensures
        names_of(found@) == words_of(text@),
{
    let parts = split(text, Separator::Whitespace);
    let ghost all = names_of(parts@);
    let ghost keep = |piece: Seq<char>| piece.len() > 0;
    let mut found: Vec<String> = Vec::new();
    let mut i: usize = 0;
    proof {
        reveal(Seq::filter);
        assert(all.take(0) =~= Seq::<Seq<char>>::empty());
        assert(names_of(found@) =~= all.take(0).filter(keep));
    }
    while i < parts.len()
        invariant
            i <= parts.len(),
            all == names_of(parts@),
            keep == |piece: Seq<char>| piece.len() > 0,
            names_of(found@) == all.take(i as int).filter(keep),
        decreases parts.len() - i,
    {
        let ghost before = names_of(found@);
        proof {
            assert(all.take(i + 1) =~= all.take(i as int).push(all[i as int]));
            all.take(i as int).lemma_filter_push(all[i as int], keep);
        }
        if parts[i].as_str().unicode_len() > 0 {
            found.push(parts[i].clone());
            assert(names_of(found@) =~= before.push(all[i as int]));
        }
        i += 1;
    }
    assert(all.take(i as int) =~= all);
    found
}

/// A line without the carriage return at its end, if it has one.
pub open spec fn without_return(line: Seq<char>) -> Seq<char> {
    if line.len() > 0 && line.last() == '\r' {
        line.drop_last()
    } else {
        line
    }
}

/// The lines of a text. A line ends at a line feed, or at a carriage return
/// with a line feed after it; neither belongs to the line. What stands
/// after the last line feed is a line too, unless it is empty.
pub open spec fn lines_of(text: Seq<char>) -> Seq<Seq<char>> {
    let parts = pieces(text, Separator::Is('\n'));
    let ended = parts.drop_last().map_values(|line: Seq<char>| without_return(line));
    if parts.last().len() == 0 {
        ended
    } else {
        ended.push(parts.last())
    }
}

/// The lines of a text.
pub fn lines(text: &str) -> (found: Vec<String>)
    ensures
        names_of(found@) == lines_of(text@),
{
    let parts = split(text, Separator::Is('\n'));
    let ghost all = names_of(parts@);
    proof {
        lemma_pieces_exist(text@, Separator::Is('\n'));
    }
    let last: usize = parts.len() - 1;
    let mut found: Vec<String> = Vec::new();
    let mut i: usize = 0;
    assert(names_of(found@) =~= all.take(0).map_values(|line: Seq<char>| without_return(line)));
    while i < last
        invariant
            i <= last,
            last == parts.len() - 1,
            all == names_of(parts@),
            names_of(found@) == all.take(i as int).map_values(
                |line: Seq<char>| without_return(line),
            ),
        decreases last - i,
    {
        let ghost before = names_of(found@);
        let line = parts[i].as_str();
        let n = line.unicode_len();
        assert(all[i as int] == line@);
        let kept = if n > 0 && line.get_char(n - 1) == '\r' {
            assert(line@.subrange(0, n - 1) =~= line@.drop_last());
            line.substring_char(0, n - 1)
        } else {
            line
        };
        found.push(String::from_str(kept));
        proof {
            assert(names_of(found@) =~= before.push(without_return(all[i as int])));
            assert(all.take(i + 1).map_values(|line: Seq<char>| without_return(line))
                =~= before.push(without_return(all[i as int])));
        }
        i += 1;
    }
    assert(all.take(last as int) =~= all.drop_last());
    if parts[last].as_str().unicode_len() > 0 {
        let ghost before = names_of(found@);
        found.push(parts[last].clone());
        assert(names_of(found@) =~= before.push(all.last()));
    }
    found
}

/// The character is a decimal digit.
pub open spec fn is_digit(c: char) -> bool {
    0x30 <= c as u32 <= 0x39
}

/// The number that a sequence of decimal digits stands for.
pub open spec fn decimal(digits: Seq<char>) -> nat
    decreases digits.len(),
{
    if digits.len() == 0 {
        0
    } else {
        (decimal(digits.drop_last()) * 10 + (digits.last() as u32 - 0x30)) as nat
    }
}

/// Every character is a decimal digit.
pub open spec fn all_digits(digits: Seq<char>) -> bool {
    forall|i: int| 0 <= i < digits.len() ==> is_digit(#[trigger] digits[i])
}

/// The number that a word stands for: one or more decimal digits, with or
/// without a plus sign before them, that stay below 2 to the 64th.
pub open spec fn number_of(word: Seq<char>) -> Option<u64> {
    let digits = if word.len() > 0 && word[0] == '+' {
        word.drop_first()
    } else {
        word
    };
    if digits.len() > 0 && all_digits(digits) && decimal(digits) <= u64::MAX {
        Some(decimal(digits) as u64)
    } else {
        None
    }
}

/// More digits do not make a number smaller.
pub proof fn lemma_decimal_grows(digits: Seq<char>, k: int)
    requires
        all_digits(digits),
        0 <= k <= digits.len(),
    ensures
        decimal(digits.take(k)) <= decimal(digits),
    decreases digits.len() - k,
{
    if k == digits.len() {
        assert(digits.take(k) =~= digits);
    } else {
        lemma_decimal_grows(digits, k + 1);
        assert(digits.take(k + 1).drop_last() =~= digits.take(k));
        assert(is_digit(digits[k]));
        assert(digits.take(k + 1).last() == digits[k]);
    }
}

/// The number that a word stands for, if it stands for one.
pub fn number(word: &str) -> (value: Option<u64>)
    ensures
        value == number_of(word@),
{
    let chars = chars_of(word);
    let first: usize = if chars.len() > 0 && chars[0] == '+' {
        1
    } else {
        0
    };
    let ghost digits = if first == 1 {
        word@.drop_first()
    } else {
        word@
    };
    assert(digits =~= word@.subrange(first as int, word@.len() as int));
    if chars.len() == first {
        return None;
    }
    let mut total: u64 = 0;
    let mut i: usize = first;
    assert(digits.take(0) =~= Seq::<char>::empty());
    while i < chars.len()
        invariant
            chars@ == word@,
            first <= i <= chars.len(),
            first < chars.len(),
            digits == word@.subrange(first as int, word@.len() as int),
            digits == (if word@.len() > 0 && word@[0] == '+' {
                word@.drop_first()
            } else {
                word@
            }),
            all_digits(digits.take(i - first)),
            total == decimal(digits.take(i - first)),
        decreases chars.len() - i,
    {
        let v: u32 = chars[i] as u32;
        let ghost seen = digits.take(i - first);
        proof {
            assert(digits.take(i - first + 1).drop_last() =~= seen);
            assert(digits.take(i - first + 1).last() == word@[i as int]);
            assert(digits[i - first] == word@[i as int]);
        }
        if v < 0x30 || v > 0x39 {
            assert(!is_digit(digits[i - first]));
            return None;
        }
        let d: u64 = (v - 0x30) as u64;
        assert(all_digits(digits.take(i - first + 1))) by {
            assert forall|k: int| 0 <= k < i - first + 1 implies is_digit(
                #[trigger] digits.take(i - first + 1)[k],
            ) by {
                if k < i - first {
                    assert(seen[k] == digits.take(i - first + 1)[k]);
                }
            }
        }
        if total > (u64::MAX - d) / 10 {
            proof {
                assert(decimal(digits.take(i - first + 1)) == total * 10 + d);
                if all_digits(digits) {
                    lemma_decimal_grows(digits, i - first + 1);
                }
            }
            return None;
        }
        total = total * 10 + d;
        i += 1;
    }
    assert(digits.take(i - first) =~= digits);
    Some(total)
}

} // verus!
