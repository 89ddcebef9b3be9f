//! The settings file: one `key=value` a line.
use vstd::prelude::*;
use vstd::string::StringExecFns;

use crate::shared::{Shared, State};
use crate::text::{chars_of, decimal, push_decimal, spells};

verus! {

/// Unicode white space.
pub open spec fn is_space(c: char) -> bool {
    ||| 0x9 <= c as int <= 0xd
    ||| c as int == 0x20
    ||| c as int == 0x85
    ||| c as int == 0xa0
    ||| c as int == 0x1680
    ||| 0x2000 <= c as int <= 0x200a
    ||| c as int == 0x2028
    ||| c as int == 0x2029
    ||| c as int == 0x202f
    ||| c as int == 0x205f
    ||| c as int == 0x3000
}

/// The text without the white space before it.
pub open spec fn trim_start(s: Seq<char>) -> Seq<char>
    decreases s.len(),
{
    if s.len() > 0 && is_space(s[0]) {
        trim_start(s.skip(1))
    } else {
        s
    }
}

/// The text without the white space after it.
pub open spec fn trim_end(s: Seq<char>) -> Seq<char>
    decreases s.len(),
{
    if s.len() > 0 && is_space(s.last()) {
        trim_end(s.drop_last())
    } else {
        s
    }
}

/// The text without the white space around it.
pub open spec fn trimmed(s: Seq<char>) -> Seq<char> {
    trim_end(trim_start(s))
}

pub open spec fn is_digit(c: char) -> bool {
    48 <= c as int <= 57
}

/// All characters are decimal digits.
pub open spec fn all_digits(s: Seq<char>) -> bool {
    forall|i: int| 0 <= i < s.len() ==> is_digit(#[trigger] s[i])
}

/// The number that decimal digits spell.
pub open spec fn digits_value(s: Seq<char>) -> int
    decreases s.len(),
{
    if s.len() == 0 {
        0
    } else {
        digits_value(s.drop_last()) * 10 + (s.last() as int - 48)
    }
}

/// The digits of a number that may begin with a plus sign.
pub open spec fn unsigned_part(s: Seq<char>) -> Seq<char> {
    if s.len() > 0 && s[0] == '+' {
        s.skip(1)
    } else {
        s
    }
}

/// The number that the text spells: digits, after a plus sign or none, of a value that
/// fits in `usize`.
pub open spec fn number(s: Seq<char>) -> Option<usize> {
    let digits = unsigned_part(s);
    if digits.len() > 0 && all_digits(digits) && digits_value(digits) <= usize::MAX {
        Some(digits_value(digits) as usize)
    } else {
        None
    }
}

/// Where `c` first occurs in the text, or the text's length.
pub open spec fn place_of(s: Seq<char>, c: char) -> int
    decreases s.len(),
{
    if s.len() == 0 || s[0] == c {
        0
    } else {
        1 + place_of(s.skip(1), c)
    }
}

/// `n`, but at most 2.
pub open spec fn at_most_two(n: usize) -> usize {
    if n > 2 {
        2
    } else {
        n
    }
}

/// The state after setting `key` to `n`; other keys are ignored.
pub open spec fn with_setting(state: State, key: Seq<char>, n: usize) -> State {
    if key == "strength"@ {
        State { strength: at_most_two(n), ..state }
    } else if key == "fps"@ {
        State { fps_idx: at_most_two(n), ..state }
    } else if key == "display"@ {
        State { display_idx: n, ..state }
    } else {
        state
    }
}

/// The state after a line of the file. One without `=`, or whose value is no number, is
/// ignored.
pub open spec fn with_line(state: State, line: Seq<char>) -> State {
    let e = place_of(line, '=');
    if e < line.len() {
        match number(trimmed(line.skip(e + 1))) {
            Some(n) => with_setting(state, trimmed(line.take(e)), n),
            None => state,
        }
    } else {
        state
    }
}

/// The state after the lines of the file.
pub open spec fn with_text(state: State, text: Seq<char>) -> State
    decreases text.len(),
{
    let e = place_of(text, '\n');
    if 0 <= e < text.len() {
        with_text(with_line(state, text.take(e)), text.skip(e + 1))
    } else {
        with_line(state, text)
    }
}

/// The file that holds the state's settings.
pub open spec fn config_text(state: State) -> Seq<char> {
    "strength="@ + decimal(state.strength as nat) + "\nfps="@ + decimal(state.fps_idx as nat)
        + "\ndisplay="@ + decimal(state.display_idx as nat) + "\n"@
}

pub(crate) proof fn lemma_place_of(s: Seq<char>, c: char, k: int)
    requires
        0 <= k <= s.len(),
        forall|i: int| 0 <= i < k ==> s[i] != c,
        k == s.len() || s[k] == c,
    ensures
        place_of(s, c) == k,
    decreases s.len(),
{
    if k > 0 {
        lemma_place_of(s.skip(1), c, k - 1);
    }
}

/// Whether `c` is white space.
pub fn is_whitespace(c: char) -> (b: bool)
    ensures
        b == is_space(c),
{
    let n: u32 = c as u32;
    (0x9 <= n && n <= 0xd) || n == 0x20 || n == 0x85 || n == 0xa0 || n == 0x1680 || (0x2000 <= n
        && n <= 0x200a) || n == 0x2028 || n == 0x2029 || n == 0x202f || n == 0x205f || n == 0x3000
}

/// The part of `lo..hi` without the white space around it.
fn trim_range(chars: &Vec<char>, lo: usize, hi: usize) -> (range: (usize, usize))
    requires
        lo <= hi <= chars.len(),
    ensures
        lo <= range.0 <= range.1 <= hi,
        chars@.subrange(range.0 as int, range.1 as int) == trimmed(
            chars@.subrange(lo as int, hi as int),
        ),
{
    let ghost whole = chars@.subrange(lo as int, hi as int);
    let mut a: usize = lo;
    while a < hi && is_whitespace(chars[a])
        invariant
            lo <= a <= hi <= chars.len(),
            trim_start(whole) == trim_start(chars@.subrange(a as int, hi as int)),
        decreases hi - a,
    {
        assert(chars@.subrange(a as int, hi as int).skip(1) =~= chars@.subrange(
            a + 1,
            hi as int,
        ));
        a = a + 1;
    }
    let ghost kept = chars@.subrange(a as int, hi as int);
    assert(trim_start(whole) == kept);
    let mut b: usize = hi;
    while a < b && is_whitespace(chars[b - 1])
        invariant
            lo <= a <= b <= hi <= chars.len(),
            trim_end(kept) == trim_end(chars@.subrange(a as int, b as int)),
        decreases b - a,
    {
        assert(chars@.subrange(a as int, b as int).drop_last() =~= chars@.subrange(
            a as int,
            b - 1,
        ));
        b = b - 1;
    }
    (a, b)
}

proof fn lemma_digits_value_grows(s: Seq<char>, k: int)
    requires
        all_digits(s),
        0 <= k <= s.len(),
    ensures
        0 <= digits_value(s.take(k)) <= digits_value(s),
    decreases s.len(),
{
    if s.len() > 0 {
        let t = s.drop_last();
        lemma_digits_value_grows(t, 0);
        assert(t.take(0) =~= Seq::<char>::empty());
        if k < s.len() {
            lemma_digits_value_grows(t, k);
            assert(t.take(k) =~= s.take(k));
        } else {
            assert(s.take(k) =~= s);
        }
    } else {
        assert(s.take(k) =~= s);
    }
}

/// The number that `lo..hi` spells, if any.
fn parse_number(chars: &Vec<char>, lo: usize, hi: usize) -> (n: Option<usize>)
    requires
        lo <= hi <= chars.len(),
    ensures
        n == number(chars@.subrange(lo as int, hi as int)),
{
    let ghost s = chars@.subrange(lo as int, hi as int);
    let start: usize = if lo < hi && chars[lo] == '+' { lo + 1 } else { lo };
    let ghost digits = chars@.subrange(start as int, hi as int);
    assert(digits =~= unsigned_part(s));
    if start == hi {
        return None;
    }
    let mut value: usize = 0;
    let mut i: usize = start;
    assert(digits.take(0) =~= Seq::<char>::empty());
    while i < hi
        invariant
            start <= i <= hi <= chars.len(),
            digits == chars@.subrange(start as int, hi as int),
            digits == unsigned_part(s),
            s == chars@.subrange(lo as int, hi as int),
            forall|k: int| 0 <= k < i - start ==> is_digit(digits[k]),
            value == digits_value(digits.take(i - start)),
        decreases hi - i,
    {
        let c: char = chars[i];
        assert(digits[i - start] == c);
        if !(c >= '0' && c <= '9') {
            assert(!all_digits(digits));
            return None;
        }
        let d: usize = (c as u32 - 48) as usize;
        let ghost longer = digits.take(i + 1 - start);
        assert(longer.drop_last() =~= digits.take(i - start));
        assert(digits_value(longer) == value * 10 + d);
        if value > (usize::MAX - d) / 10 {
            proof {
                if all_digits(digits) {
                    lemma_digits_value_grows(digits, i + 1 - start);
                }
            }
            return None;
        }
        value = value * 10 + d;
        i = i + 1;
    }
    assert(digits.take(hi - start) =~= digits);
    Some(value)
}

/// Where `c` first occurs in `lo..hi`, or `hi`.
fn find(chars: &Vec<char>, lo: usize, hi: usize, c: char) -> (at: usize)
    requires
        lo <= hi <= chars.len(),
    ensures
        lo <= at <= hi,
        at == lo + place_of(chars@.subrange(lo as int, hi as int), c),
        at < hi ==> chars@[at as int] == c,
{
    let mut at: usize = lo;
    while at < hi && chars[at] != c
        invariant
            lo <= at <= hi <= chars.len(),
            forall|k: int| lo <= k < at ==> chars@[k] != c,
        decreases hi - at,
    {
        at = at + 1;
    }
    proof {
        lemma_place_of(chars@.subrange(lo as int, hi as int), c, at - lo);
    }
    at
}

/// Takes the setting of the line `lo..hi` over.
fn load_line(shared: &mut Shared, chars: &Vec<char>, lo: usize, hi: usize)
    requires
        lo <= hi <= chars.len(),
    ensures
        final(shared)@ == with_line(old(shared)@, chars@.subrange(lo as int, hi as int)),
{
    let ghost line = chars@.subrange(lo as int, hi as int);
    let e: usize = find(chars, lo, hi, '=');
    if e == hi {
        return ;
    }
    assert(line.skip(e - lo + 1) =~= chars@.subrange(e + 1, hi as int));
    assert(line.take(e - lo) =~= chars@.subrange(lo as int, e as int));
    let (va, vb): (usize, usize) = trim_range(chars, e + 1, hi);
    let n: usize = match parse_number(chars, va, vb) {
        None => return ,
        Some(n) => n,
    };
    let (ka, kb): (usize, usize) = trim_range(chars, lo, e);
    if spells(chars, ka, kb, "strength") {
        shared.strength = if n > 2 { 2 } else { n };
    } else if spells(chars, ka, kb, "fps") {
        shared.fps_idx = if n > 2 { 2 } else { n };
    } else if spells(chars, ka, kb, "display") {
        shared.display_idx = n;
    }
}

/// Takes the settings in the text of the file over. Lines that set nothing are ignored.
pub fn load_config(shared: &mut Shared, text: &str)
    ensures
        final(shared)@ == with_text(old(shared)@, text@),
{
    let chars: Vec<char> = chars_of(text);
    let n: usize = chars.len();
    let mut lo: usize = 0;
    let ghost want = with_text(shared@, text@);
    assert(chars@.subrange(0, n as int) =~= text@);
    loop
        invariant
            lo <= n,
            n == chars.len(),
            with_text(shared@, chars@.subrange(lo as int, n as int)) == want,
        ensures
            shared@ == want,
        decreases n - lo,
    {
        let e: usize = find(&chars, lo, n, '\n');
        let ghost rest = chars@.subrange(lo as int, n as int);
        assert(rest.take(e - lo) =~= chars@.subrange(lo as int, e as int));
        load_line(shared, &chars, lo, e);
        if e == n {
            assert(rest.take(e - lo) =~= rest);
            break;
        }
        assert(rest.skip(e - lo + 1) =~= chars@.subrange(e + 1, n as int));
        lo = e + 1;
    }
}

/// The text of the file that holds the settings.
pub fn save_config(shared: &Shared) -> (text: String)
    ensures
        text@ == config_text(shared@),
{
    let mut text: String = String::new();
    text.append("strength=");
    push_decimal(&mut text, shared.strength);
    text.append("\nfps=");
    push_decimal(&mut text, shared.fps_idx);
    text.append("\ndisplay=");
    push_decimal(&mut text, shared.display_idx);
    text.append("\n");
    assert(text@ =~= config_text(shared@));
    text
}

pub(crate) proof fn lemma_decimal(n: nat)
    ensures
        decimal(n).len() > 0,
        all_digits(decimal(n)),
        digits_value(decimal(n)) == n,
    decreases n,
{
    let d = decimal(n);
    if n >= 10 {
        lemma_decimal(n / 10);
        assert(d.drop_last() =~= decimal(n / 10));
    } else {
        assert(d.drop_last() =~= Seq::<char>::empty());
        assert(digits_value(d.drop_last()) == 0);
    }
}

/// Decimal digits spell the number they were written for.
proof fn lemma_number_of_decimal(n: usize)
    ensures
        number(trimmed(decimal(n as nat))) == Some(n),
{
    let d = decimal(n as nat);
    lemma_decimal(n as nat);
    assert(is_digit(d[0]) && is_digit(d.last()));
    assert(trimmed(d) == d);
    assert(unsigned_part(d) == d);
}

/// A line of a key and a number sets the key to the number.
proof fn lemma_setting_line(state: State, key: Seq<char>, n: usize)
    requires
        key.len() > 0,
        !is_space(key[0]),
        !is_space(key.last()),
        forall|i: int| 0 <= i < key.len() ==> key[i] != '=',
    ensures
        with_line(state, key + seq!['='] + decimal(n as nat)) == with_setting(state, key, n),
{
    let d = decimal(n as nat);
    let line = key + seq!['='] + d;
    let e = key.len() as int;
    lemma_place_of(line, '=', e);
    assert(line.skip(e + 1) =~= d);
    assert(line.take(e) =~= key);
    assert(trimmed(key) == key);
    lemma_number_of_decimal(n);
}

/// Text that begins with a whole line is read line by line.
proof fn lemma_first_line(state: State, line: Seq<char>, rest: Seq<char>)
    requires
        forall|i: int| 0 <= i < line.len() ==> line[i] != '\n',
    ensures
        with_text(state, line + seq!['\n'] + rest) == with_text(with_line(state, line), rest),
{
    let text = line + seq!['\n'] + rest;
    let e = line.len() as int;
    lemma_place_of(text, '\n', e);
    assert(text.take(e) =~= line);
    assert(text.skip(e + 1) =~= rest);
}

/// A key, `=` and digits make no line break.
proof fn lemma_no_break(key: Seq<char>, n: nat)
    requires
        forall|i: int| 0 <= i < key.len() ==> key[i] != '\n',
    ensures
        ({
            let line = key + seq!['='] + decimal(n);
            forall|i: int| 0 <= i < line.len() ==> line[i] != '\n'
        }),
{
    let line = key + seq!['='] + decimal(n);
    lemma_decimal(n);
    assert forall|i: int| 0 <= i < line.len() implies line[i] != '\n' by {
        if i > key.len() {
            assert(is_digit(decimal(n)[i - key.len() - 1]));
        }
    }
}

/// Reading a saved file back restores the settings: whatever the state was before, the
/// strength, the frame rate and the display are those that were saved, and all else is
/// as it was. An index past the last strength or frame rate comes back as the last one.
pub proof fn law_saved_settings_are_restored(saved: State, state: State)
    ensures
        with_text(state, config_text(saved)) == (State {
            strength: at_most_two(saved.strength),
            fps_idx: at_most_two(saved.fps_idx),
            display_idx: saved.display_idx,
            ..state
        }),
        saved.wf() ==> with_text(state, config_text(saved)) == (State {
            strength: saved.strength,
            fps_idx: saved.fps_idx,
            display_idx: saved.display_idx,
            ..state
        }),
{
    reveal_strlit("strength=");
    reveal_strlit("strength");
    reveal_strlit("\nfps=");
    reveal_strlit("fps");
    reveal_strlit("\ndisplay=");
    reveal_strlit("display");
    reveal_strlit("\n");
    let (ks, kf, kd) = ("strength"@, "fps"@, "display"@);
    let l1 = ks + seq!['='] + decimal(saved.strength as nat);
    let l2 = kf + seq!['='] + decimal(saved.fps_idx as nat);
    let l3 = kd + seq!['='] + decimal(saved.display_idx as nat);
    let r3 = l3 + seq!['\n'] + Seq::<char>::empty();
    let r2 = l2 + seq!['\n'] + r3;
    assert("strength="@ =~= ks + seq!['=']);
    assert("\nfps="@ =~= seq!['\n'] + kf + seq!['=']);
    assert("\ndisplay="@ =~= seq!['\n'] + kd + seq!['=']);
    assert("\n"@ =~= seq!['\n']);
    assert(config_text(saved) =~= l1 + seq!['\n'] + r2);
    lemma_no_break(ks, saved.strength as nat);
    lemma_no_break(kf, saved.fps_idx as nat);
    lemma_no_break(kd, saved.display_idx as nat);
    let s1 = with_line(state, l1);
    let s2 = with_line(s1, l2);
    let s3 = with_line(s2, l3);
    lemma_first_line(state, l1, r2);
    lemma_first_line(s1, l2, r3);
    lemma_first_line(s2, l3, Seq::empty());
    lemma_setting_line(state, ks, saved.strength);
    lemma_setting_line(s1, kf, saved.fps_idx);
    lemma_setting_line(s2, kd, saved.display_idx);
    assert(ks.len() != kf.len() && ks.len() != kd.len() && kf.len() != kd.len());
    lemma_place_of(Seq::<char>::empty(), '\n', 0);
    lemma_place_of(Seq::<char>::empty(), '=', 0);
    assert(with_text(s3, Seq::empty()) == s3);
}

/// The number that a line sets `key` to, if it does: it holds the key, `=` and a number.
pub open spec fn setting_in(line: Seq<char>, key: Seq<char>) -> Option<usize> {
    let e = place_of(line, '=');
    if e < line.len() && trimmed(line.take(e)) == key {
        number(trimmed(line.skip(e + 1)))
    } else {
        None
    }
}

/// The lines of a file.
pub open spec fn lines_of(text: Seq<char>) -> Seq<Seq<char>>
    decreases text.len(),
{
    let e = place_of(text, '\n');
    if 0 <= e < text.len() {
        seq![text.take(e)] + lines_of(text.skip(e + 1))
    } else {
        seq![text]
    }
}

/// The number that the last of the lines to set `key` sets it to, if any does.
pub open spec fn last_setting(lines: Seq<Seq<char>>, key: Seq<char>) -> Option<usize>
    decreases lines.len(),
{
    if lines.len() == 0 {
        None
    } else if setting_in(lines.last(), key) is Some {
        setting_in(lines.last(), key)
    } else {
        last_setting(lines.drop_last(), key)
    }
}

/// The state after lines one after the other.
spec fn with_lines(state: State, lines: Seq<Seq<char>>) -> State
    decreases lines.len(),
{
    if lines.len() == 0 {
        state
    } else {
        with_line(with_lines(state, lines.drop_last()), lines.last())
    }
}

proof fn lemma_with_lines_first(state: State, line: Seq<char>, rest: Seq<Seq<char>>)
    ensures
        with_lines(state, seq![line] + rest) == with_lines(with_line(state, line), rest),
    decreases rest.len(),
{
    let lines = seq![line] + rest;
    if rest.len() == 0 {
        assert(lines.drop_last() =~= Seq::<Seq<char>>::empty());
        assert(with_lines(state, lines.drop_last()) == state);
    } else {
        assert(lines.drop_last() =~= seq![line] + rest.drop_last());
        lemma_with_lines_first(state, line, rest.drop_last());
    }
}

/// A file is read line by line.
proof fn lemma_text_is_its_lines(state: State, text: Seq<char>)
    ensures
        with_text(state, text) == with_lines(state, lines_of(text)),
    decreases text.len(),
{
    let e = place_of(text, '\n');
    if 0 <= e < text.len() {
        let (line, rest) = (text.take(e), text.skip(e + 1));
        lemma_text_is_its_lines(with_line(state, line), rest);
        lemma_with_lines_first(state, line, lines_of(rest));
    } else {
        let none = Seq::<Seq<char>>::empty();
        assert(seq![text] + none =~= seq![text]);
        lemma_with_lines_first(state, text, none);
    }
}

proof fn lemma_lines_set(state: State, lines: Seq<Seq<char>>)
    ensures
        with_lines(state, lines) == (State {
            strength: match last_setting(lines, "strength"@) {
                Some(n) => at_most_two(n),
                None => state.strength,
            },
            fps_idx: match last_setting(lines, "fps"@) {
                Some(n) => at_most_two(n),
                None => state.fps_idx,
            },
            display_idx: match last_setting(lines, "display"@) {
                Some(n) => n,
                None => state.display_idx,
            },
            ..state
        }),
    decreases lines.len(),
{
    reveal_strlit("strength");
    reveal_strlit("fps");
    reveal_strlit("display");
    assert("strength"@.len() == 8 && "fps"@.len() == 3 && "display"@.len() == 7);
    if lines.len() > 0 {
        lemma_lines_set(state, lines.drop_last());
    }
}

proof fn lemma_last_setting_is_in_a_line(lines: Seq<Seq<char>>, key: Seq<char>)
    ensures
        last_setting(lines, key) is Some <==> exists|i: int|
            0 <= i < lines.len() && (#[trigger] setting_in(lines[i], key)) is Some,
    decreases lines.len(),
{
    if lines.len() > 0 {
        let before = lines.drop_last();
        lemma_last_setting_is_in_a_line(before, key);
        if last_setting(lines, key) is Some {
            if setting_in(lines.last(), key) is Some {
                assert(setting_in(lines[lines.len() - 1], key) is Some);
            } else {
                let i = choose|i: int|
                    0 <= i < before.len() && (#[trigger] setting_in(before[i], key)) is Some;
                assert(setting_in(lines[i], key) is Some);
            }
        }
        if exists|i: int|
            0 <= i < lines.len() && (#[trigger] setting_in(lines[i], key)) is Some {
            let i = choose|i: int|
                0 <= i < lines.len() && (#[trigger] setting_in(lines[i], key)) is Some;
            if i < before.len() {
                assert(setting_in(before[i], key) is Some);
            }
        }
    }
}

/// Each setting becomes what the last line to set it says, and stays as it was where no
/// line sets it; all else stays as it was.
pub proof fn law_last_line_decides(state: State, text: Seq<char>)
    ensures
        with_text(state, text) == (State {
            strength: match last_setting(lines_of(text), "strength"@) {
                Some(n) => at_most_two(n),
                None => state.strength,
            },
            fps_idx: match last_setting(lines_of(text), "fps"@) {
                Some(n) => at_most_two(n),
                None => state.fps_idx,
            },
            display_idx: match last_setting(lines_of(text), "display"@) {
                Some(n) => n,
                None => state.display_idx,
            },
            ..state
        }),
{
    lemma_text_is_its_lines(state, text);
    lemma_lines_set(state, lines_of(text));
}

/// Some line of the file holds the key and a number.
pub open spec fn is_set_in(text: Seq<char>, key: Seq<char>) -> bool {
    exists|i: int|
        0 <= i < lines_of(text).len() && (#[trigger] setting_in(lines_of(text)[i], key)) is Some
}

/// A setting changes only where some line holds its key and a number.
pub proof fn law_settings_change_by_their_lines_only(state: State, text: Seq<char>)
    ensures
        !is_set_in(text, "strength"@) ==> with_text(state, text).strength == state.strength,
        !is_set_in(text, "fps"@) ==> with_text(state, text).fps_idx == state.fps_idx,
        !is_set_in(text, "display"@) ==> with_text(state, text).display_idx == state.display_idx,
{
    law_last_line_decides(state, text);
    lemma_last_setting_is_in_a_line(lines_of(text), "strength"@);
    lemma_last_setting_is_in_a_line(lines_of(text), "fps"@);
    lemma_last_setting_is_in_a_line(lines_of(text), "display"@);
}

/// Whatever a settings file holds, the choices stay among those offered: a strength and a
/// frame rate that were stay so, and a file that sets them sets them so.
pub proof fn law_any_file_keeps_choices_valid(state: State, text: Seq<char>)
    ensures
        state.strength < 3 || is_set_in(text, "strength"@) ==> with_text(state, text).strength < 3,
        state.fps_idx < 3 || is_set_in(text, "fps"@) ==> with_text(state, text).fps_idx < 3,
        state.wf() ==> with_text(state, text).wf(),
{
    law_last_line_decides(state, text);
    lemma_last_setting_is_in_a_line(lines_of(text), "strength"@);
    lemma_last_setting_is_in_a_line(lines_of(text), "fps"@);
}

} // verus!
