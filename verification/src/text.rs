use vstd::prelude::*;
use vstd::string::StrSliceExecFns;

verus! {

/// ASCII uppercase of one character: a lowercase ASCII letter moves down
/// 32 code points to its uppercase form; every other character is kept.
pub open spec fn upper_char(c: char) -> char {
    if 'a' <= c && c <= 'z' {
        ((c as int) - 32) as char
    } else {
        c
    }
}

/// ASCII uppercase of a character sequence, character by character.
pub open spec fn upper_seq(s: Seq<char>) -> Seq<char> {
    s.map_values(|c: char| upper_char(c))
}

/// The character for one decimal digit (`d < 10`).
pub open spec fn digit_char(d: nat) -> char {
    (48 + d) as char
}

/// The decimal digits of `n`, most significant first, no sign and no
/// leading zeros (except for `n == 0` itself).
pub open spec fn dec_seq(n: nat) -> Seq<char>
    decreases n,
{
    if n < 10 {
        seq![digit_char(n)]
    } else {
        dec_seq(n / 10).push(digit_char(n % 10))
    }
}

/// Relies on std's `String::push`: appends the given character to the end
/// of the string.
#[verifier::external_body]
pub(crate) fn push_char(s: &mut String, c: char)
    ensures
        final(s)@ == old(s)@.push(c),
{
    s.push(c);
}

/// Uppercases a word, character by character, the way words are
/// normalized before they are placed into the puzzle.
pub fn to_upper(word: &str) -> (r: String)
    ensures
        r@ == upper_seq(word@),
{
    let n = word.unicode_len();
    let mut out = String::new();
    let mut i: usize = 0;
    while i < n
        invariant
            n == word@.len(),
            i <= n,
            out@ == upper_seq(word@).subrange(0, i as int),
        decreases n - i,
    {
        let c = word.get_char(i);
        let u: char = if 'a' <= c && c <= 'z' {
            ((c as u8) - 32) as char
        } else {
            c
        };
        proof {
            assert(u == upper_char(word@[i as int]));
        }
        push_char(&mut out, u);
        i += 1;
        proof {
            assert(out@ =~= upper_seq(word@).subrange(0, i as int));
        }
    }
    proof {
        assert(out@ =~= upper_seq(word@));
    }
    out
}

/// Renders a number in decimal, the way the error messages name the grid
/// size.
pub fn usize_to_string(n: usize) -> (r: String)
    ensures
        r@ == dec_seq(n as nat),
    decreases n,
{
    if n < 10 {
        let mut s = String::new();
        push_char(&mut s, (48 + (n as u8)) as char);
        proof {
            assert(s@ =~= dec_seq(n as nat));
        }
        s
    } else {
        let mut s = usize_to_string(n / 10);
        push_char(&mut s, (48 + ((n % 10) as u8)) as char);
        proof {
            assert(s@ =~= dec_seq(n as nat));
        }
        s
    }
}

} // verus!
