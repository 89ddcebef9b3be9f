//! Text helpers: characters, decimal numbers, comparison.
use vstd::prelude::*;
use vstd::string::StringExecFns;

verus! {

/// The digit `d` as a character.
pub open spec fn digit_char(d: int) -> char {
    (48 + d) as char
}

/// The decimal digits of `n`, without leading zeros.
pub open spec fn decimal(n: nat) -> Seq<char>
    decreases n,
{
    if n < 10 {
        seq![digit_char(n as int)]
    } else {
        decimal(n / 10).push(digit_char((n % 10) as int))
    }
}

/// The digit `d` as text.
fn digit_str(d: usize) -> (s: &'static str)
    requires
        d < 10,
    ensures
        s@ == seq![digit_char(d as int)],
{
    proof {
        reveal_strlit("0");
        reveal_strlit("1");
        reveal_strlit("2");
        reveal_strlit("3");
        reveal_strlit("4");
        reveal_strlit("5");
        reveal_strlit("6");
        reveal_strlit("7");
        reveal_strlit("8");
        reveal_strlit("9");
    }
    let s: &'static str = if d == 0 {
        "0"
    } else if d == 1 {
        "1"
    } else if d == 2 {
        "2"
    } else if d == 3 {
        "3"
    } else if d == 4 {
        "4"
    } else if d == 5 {
        "5"
    } else if d == 6 {
        "6"
    } else if d == 7 {
        "7"
    } else if d == 8 {
        "8"
    } else {
        "9"
    };
    assert(s@ =~= seq![digit_char(d as int)]);
    s
}

/// Appends the decimal digits of `n` to `out`.
pub fn push_decimal(out: &mut String, n: usize)
    ensures
        final(out)@ == old(out)@ + decimal(n as nat),
    decreases n,
{
    let ghost before = out@;
    if n >= 10 {
        push_decimal(out, n / 10);
    }
    out.append(digit_str(n % 10));
    assert(out@ =~= before + decimal(n as nat));
}

/// The characters of `s`.
pub fn chars_of(s: &str) -> (chars: Vec<char>)
    ensures
        chars@ == s@,
{
    let mut chars: Vec<char> = Vec::new();
    for c in it: s.chars()
        invariant
            chars@ == it.seq().take(it.index() as int),
    {
        chars.push(c);
    }
    chars
}

/// Whether the characters `lo..hi` of `chars` spell `word`.
pub fn spells(chars: &Vec<char>, lo: usize, hi: usize, word: &str) -> (b: bool)
    requires
        lo <= hi <= chars.len(),
    ensures
        b == (chars@.subrange(lo as int, hi as int) == word@),
{
    let letters: Vec<char> = chars_of(word);
    let n: usize = letters.len();
    if hi - lo != n {
        return false;
    }
    let mut i: usize = 0;
    while i < n
        invariant
            i <= n,
            n == letters.len(),
            letters@ == word@,
            lo <= hi <= chars.len(),
            hi - lo == n,
            forall|k: int| 0 <= k < i ==> chars@[lo + k] == letters@[k],
        decreases n - i,
    {
        if chars[lo + i] != letters[i] {
            assert(chars@.subrange(lo as int, hi as int)[i as int] != word@[i as int]);
            return false;
        }
        i = i + 1;
    }
    assert(chars@.subrange(lo as int, hi as int) =~= word@);
    true
}

/// Whether `s` is `word`.
pub fn is_word(s: &str, word: &str) -> (b: bool)
    ensures
        b == (s@ == word@),
{
    let chars: Vec<char> = chars_of(s);
    let n: usize = chars.len();
    assert(chars@.subrange(0, n as int) =~= s@);
    spells(&chars, 0, n, word)
}

/// Whether `s` begins with `word`.
pub fn begins_with(s: &str, word: &str) -> (b: bool)
    ensures
        b == word@.is_prefix_of(s@),
{
    let chars: Vec<char> = chars_of(s);
    let n: usize = chars_of(word).len();
    if chars.len() < n {
        return false;
    }
    assert(chars@.subrange(0, n as int) == word@ <==> word@.is_prefix_of(s@)) by {
        if word@.is_prefix_of(s@) {
            assert(chars@.subrange(0, n as int) =~= word@);
        }
    }
    spells(&chars, 0, n, word)
}

} // verus!
