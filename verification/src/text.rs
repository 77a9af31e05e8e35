//! Text as sequences of characters.

use vstd::prelude::*;

verus! {

/// `String::push` appends one character.
pub assume_specification[ String::push ](s: &mut String, c: char)
    ensures
        final(s)@ == old(s)@.push(c),
;

/// `<str as PartialEq>::eq` holds exactly when both spell the same characters.
pub assume_specification[ <str as PartialEq<str>>::eq ](a: &str, b: &str) -> (r: bool)
    ensures
        r == (a@ == b@),
;

/// `char::from_u32` accepts exactly the Unicode scalar values.
pub assume_specification[ char::from_u32 ](i: u32) -> (r: Option<char>)
    ensures
        r is Some <==> (i <= 0xd7ff || 0xe000 <= i <= 0x10ffff),
        r is Some ==> r->0 == i as char,
;

/// The characters of a text.
pub fn chars_of(s: &str) -> (v: Vec<char>)
    ensures
        v@ == s@,
{
    let mut v: Vec<char> = Vec::new();
    for c in it: s.chars()
        invariant
            v@ =~= it.seq().take(it.index() as int),
            it.seq() == s@,
    {
        v.push(c);
    }
    v
}

/// The text that the characters spell.
pub fn string_of(v: &[char]) -> (s: String)
    ensures
        s@ == v@,
{
    let mut s = String::new();
    for i in 0..v.len()
        invariant
            s@ =~= v@.take(i as int),
    {
        s.push(v[i]);
    }
    assert(v@.take(v@.len() as int) =~= v@);
    s
}

/// Whether two texts spell the same characters.
pub fn same_text(a: &str, b: &str) -> (r: bool)
    ensures
        r == (a@ == b@),
{
    *a == *b
}

/// The text that UTF-8 bytes spell, by `std::str::from_utf8`: it accepts
/// exactly the byte sequences that are UTF-8.
#[verifier::external_body]
pub(crate) fn utf8_text(b: &[u8]) -> (r: Option<String>)
    ensures
        r is Some <==> vstd::utf8::valid_utf8(b@),
        r is Some ==> r->0@ == vstd::utf8::decode_utf8(b@),
{
    match std::str::from_utf8(b) {
        Ok(s) => Some(s.to_owned()),
        Err(_) => None,
    }
}

/// What `String::from_utf8_lossy` reads in bytes.
pub uninterp spec fn lossy_utf8(b: Seq<u8>) -> Seq<char>;

/// `String::from_utf8_lossy`: the text of the bytes, with U+FFFD for what is
/// not UTF-8. Bytes that are UTF-8 are taken as they are.
#[verifier::external_body]
pub(crate) fn utf8_text_lossy(b: &[u8]) -> (r: String)
    ensures
        r@ == lossy_utf8(b@),
        vstd::utf8::valid_utf8(b@) ==> r@ == vstd::utf8::decode_utf8(b@),
{
    String::from_utf8_lossy(b).into_owned()
}

/// A letter of the Latin alphabet.
pub open spec fn ascii_letter(c: char) -> bool {
    'a' <= c <= 'z' || 'A' <= c <= 'Z'
}

/// The capital of a small Latin letter; other characters stay.
pub open spec fn ascii_upper(c: char) -> char {
    if 'a' <= c <= 'z' {
        (c as u32 - 32) as char
    } else {
        c
    }
}

/// The small letter of a Latin capital; other characters stay.
pub open spec fn ascii_lower(c: char) -> char {
    if 'A' <= c <= 'Z' {
        (c as u32 + 32) as char
    } else {
        c
    }
}

pub fn is_ascii_letter(c: char) -> (r: bool)
    ensures
        r == ascii_letter(c),
{
    'a' <= c && c <= 'z' || 'A' <= c && c <= 'Z'
}

pub fn to_ascii_upper(c: char) -> (r: char)
    ensures
        r == ascii_upper(c),
{
    if 'a' <= c && c <= 'z' {
        (c as u8 - 32) as char
    } else {
        c
    }
}

pub fn to_ascii_lower(c: char) -> (r: char)
    ensures
        r == ascii_lower(c),
{
    if 'A' <= c && c <= 'Z' {
        (c as u8 + 32) as char
    } else {
        c
    }
}

/// Whether `c` separates path components in Windows paths.
pub open spec fn is_separator(c: char) -> bool {
    c == '\\' || c == '/'
}

/// `s` without the separators at its end.
pub open spec fn without_trailing_separators(s: Seq<char>) -> Seq<char>
    decreases s.len(),
{
    if s.len() > 0 && is_separator(s.last()) {
        without_trailing_separators(s.drop_last())
    } else {
        s
    }
}

/// Drops the separators at the end of `s`.
pub fn trim_trailing_separators(s: &str) -> (r: String)
    ensures
        r@ == without_trailing_separators(s@),
{
    let mut chars = chars_of(s);
    while chars.len() > 0 && (chars[chars.len() - 1] == '\\' || chars[chars.len() - 1] == '/')
        invariant
            without_trailing_separators(chars@) == without_trailing_separators(s@),
        decreases chars.len(),
    {
        let ghost before = chars@;
        let _ = chars.pop();
        assert(chars@ =~= before.drop_last());
    }
    string_of(&chars)
}

/// A code unit that opens a surrogate pair.
pub open spec fn is_high_surrogate(u: u16) -> bool {
    0xd800 <= u <= 0xdbff
}

/// A code unit that closes a surrogate pair.
pub open spec fn is_low_surrogate(u: u16) -> bool {
    0xdc00 <= u <= 0xdfff
}

/// The character that a surrogate pair stands for.
pub open spec fn paired(high: u16, low: u16) -> char {
    (0x10000 + (high - 0xd800) * 0x400 + (low - 0xdc00)) as char
}

/// UTF-16 as text: a pair is one character, a lone surrogate becomes U+FFFD.
pub open spec fn utf16_text(w: Seq<u16>) -> Seq<char>
    decreases w.len(),
{
    if w.len() == 0 {
        Seq::empty()
    } else if is_high_surrogate(w[0]) && w.len() > 1 && is_low_surrogate(w[1]) {
        seq![paired(w[0], w[1])] + utf16_text(w.skip(2))
    } else if is_high_surrogate(w[0]) || is_low_surrogate(w[0]) {
        seq!['\u{fffd}'] + utf16_text(w.skip(1))
    } else {
        seq![w[0] as char] + utf16_text(w.skip(1))
    }
}

/// Reads UTF-16 code units, with U+FFFD for every lone surrogate.
pub fn decode_utf16_lossy(w: &[u16]) -> (v: Vec<char>)
    ensures
        v@ == utf16_text(w@),
{
    let mut v: Vec<char> = Vec::new();
    let mut i: usize = 0;
    assert(w@.skip(0) =~= w@);
    while i < w.len()
        invariant
            i <= w@.len(),
            v@ + utf16_text(w@.skip(i as int)) =~= utf16_text(w@),
        decreases w@.len() - i,
    {
        let ghost rest = w@.skip(i as int);
        let ghost before = v@;
        let unit: u16 = w[i];
        if 0xd800 <= unit && unit <= 0xdfff {
            if unit <= 0xdbff && i + 1 < w.len() && 0xdc00 <= w[i + 1] && w[i + 1] <= 0xdfff {
                let code: u32 = 0x10000 + (unit - 0xd800) as u32 * 0x400 + (w[i + 1] - 0xdc00)
                    as u32;
                match char::from_u32(code) {
                    Some(c) => v.push(c),
                    None => {
                        assert(false);
                    },
                }
                assert(rest.skip(2) =~= w@.skip(i + 2));
                assert(v@ + utf16_text(w@.skip(i + 2)) =~= before + utf16_text(rest));
                i = i + 2;
            } else {
                v.push('\u{fffd}');
                assert(rest.skip(1) =~= w@.skip(i + 1));
                assert(v@ + utf16_text(w@.skip(i + 1)) =~= before + utf16_text(rest));
                i = i + 1;
            }
        } else {
            match char::from_u32(unit as u32) {
                Some(c) => v.push(c),
                None => {
                    assert(false);
                },
            }
            assert(rest.skip(1) =~= w@.skip(i + 1));
            assert(v@ + utf16_text(w@.skip(i + 1)) =~= before + utf16_text(rest));
            i = i + 1;
        }
    }
    assert(w@.skip(i as int) =~= Seq::<u16>::empty());
    v
}

/// The code units of a text in UTF-16: one up to U+FFFF, two above.
pub open spec fn utf16_units(s: Seq<char>) -> Seq<u16>
    decreases s.len(),
{
    if s.len() == 0 {
        Seq::empty()
    } else {
        let c = s[0] as int;
        let first = if c < 0x10000 {
            seq![c as u16]
        } else {
            seq![
                (0xd800 + (c - 0x10000) / 0x400) as u16,
                (0xdc00 + (c - 0x10000) % 0x400) as u16,
            ]
        };
        first + utf16_units(s.drop_first())
    }
}

/// Every character has a number, and is the character with that number.
pub proof fn character_has_a_number(c: char)
    ensures
        0 <= c as int <= 0xd7ff || 0xe000 <= c as int <= 0x10ffff,
        c as int as char == c,
{
}

/// A text that was written in UTF-16 reads back as it was.
pub proof fn utf16_reads_back(s: Seq<char>)
    ensures
        utf16_text(utf16_units(s)) == s,
    decreases s.len(),
{
    if s.len() > 0 {
        let rest = utf16_units(s.drop_first());
        let w = utf16_units(s);
        utf16_reads_back(s.drop_first());
        let c = s[0] as int;
        character_has_a_number(s[0]);
        if c < 0x10000 {
            assert(w.skip(1) =~= rest);
            assert(w[0] == c);
            assert(w[0] as char == s[0]);
        } else {
            assert(w.skip(2) =~= rest);
            assert(w[0] == 0xd800 + (c - 0x10000) / 0x400);
            assert(w[1] == 0xdc00 + (c - 0x10000) % 0x400);
            assert(paired(w[0], w[1]) == s[0]);
        }
        assert(utf16_text(w) =~= s);
    } else {
        assert(utf16_text(utf16_units(s)) =~= s);
    }
}

/// Only NUL is written with a unit that is zero.
pub proof fn units_of_text(s: Seq<char>)
    ensures
        utf16_units(s).len() >= s.len(),
        !s.contains('\0') ==> forall|i: int|
            0 <= i < utf16_units(s).len() ==> #[trigger] utf16_units(s)[i] != 0,
    decreases s.len(),
{
    if s.len() > 0 {
        let rest = s.drop_first();
        units_of_text(rest);
        character_has_a_number(s[0]);
        if !s.contains('\0') {
            assert(s.contains(s[0]));
            assert forall|c: char| rest.contains(c) implies s.contains(c) by {
                let k = choose|k: int| 0 <= k < rest.len() && rest[k] == c;
                assert(s[k + 1] == c);
            }
            let n = utf16_units(s).len() - utf16_units(rest).len();
            assert forall|i: int| 0 <= i < utf16_units(s).len() implies #[trigger] utf16_units(s)[i]
                != 0 by {
                if i >= n {
                    assert(utf16_units(s)[i] == utf16_units(rest)[i - n]);
                }
            }
        }
    }
}

/// Every code unit is read: a lone surrogate gives one U+FFFD, and what
/// stands behind any character is read as if it stood alone.
pub proof fn units_are_read_one_after_another(c: char, w: Seq<u16>)
    ensures
        utf16_text(utf16_units(seq![c]) + w) == seq![c] + utf16_text(w),
        forall|u: u16|
            0xdc00 <= u <= 0xdfff ==> #[trigger] utf16_text(seq![u] + w) == seq!['\u{fffd}']
                + utf16_text(w),
        forall|u: u16|
            0xd800 <= u <= 0xdbff && (w.len() == 0 || !(0xdc00 <= w[0] <= 0xdfff))
                ==> #[trigger] utf16_text(seq![u] + w) == seq!['\u{fffd}'] + utf16_text(w),
{
    let one = utf16_units(seq![c]);
    utf16_reads_back(seq![c]);
    assert(seq![c].drop_first() =~= Seq::empty());
    assert(utf16_units(seq![c].drop_first()) =~= Seq::empty());
    assert((one + w).skip(one.len() as int) =~= w);
    assert forall|u: u16| #[trigger] (seq![u] + w).skip(1) == w by {
        assert((seq![u] + w).skip(1) =~= w);
    }
    assert forall|u: u16| 0xdc00 <= u <= 0xdfff implies #[trigger] utf16_text(seq![u] + w) == seq![
        '\u{fffd}',
    ] + utf16_text(w) by {
        assert((seq![u] + w).skip(1) == w);
    }
    assert forall|u: u16|
        0xd800 <= u <= 0xdbff && (w.len() == 0 || !(0xdc00 <= w[0] <= 0xdfff)) implies #[trigger] utf16_text(
        seq![u] + w,
    ) == seq!['\u{fffd}'] + utf16_text(w) by {
        assert((seq![u] + w).skip(1) == w);
    }
}

/// The characters with the Unicode property `White_Space`.
pub open spec fn white_space(c: char) -> bool {
    let u = c as u32;
    0x9 <= u <= 0xd || u == 0x20 || u == 0x85 || u == 0xa0 || u == 0x1680 || 0x2000 <= u <= 0x200a
        || u == 0x2028 || u == 0x2029 || u == 0x202f || u == 0x205f || u == 0x3000
}

pub fn is_white_space(c: char) -> (r: bool)
    ensures
        r == white_space(c),
{
    let u: u32 = c as u32;
    0x9 <= u && u <= 0xd || u == 0x20 || u == 0x85 || u == 0xa0 || u == 0x1680 || 0x2000 <= u && u
        <= 0x200a || u == 0x2028 || u == 0x2029 || u == 0x202f || u == 0x205f || u == 0x3000
}

/// `s` without the white space at its end.
pub open spec fn trimmed_end(s: Seq<char>) -> Seq<char>
    decreases s.len(),
{
    if s.len() > 0 && white_space(s.last()) {
        trimmed_end(s.drop_last())
    } else {
        s
    }
}

/// `s` without the white space at its start.
pub open spec fn trimmed_start(s: Seq<char>) -> Seq<char>
    decreases s.len(),
{
    if s.len() > 0 && white_space(s[0]) {
        trimmed_start(s.drop_first())
    } else {
        s
    }
}

/// `s` without the white space around it.
pub open spec fn trimmed(s: Seq<char>) -> Seq<char> {
    trimmed_start(trimmed_end(s))
}

/// The characters of `s` without the white space around them.
pub fn trim(s: &str) -> (v: Vec<char>)
    ensures
        v@ == trimmed(s@),
{
    let mut chars = chars_of(s);
    while chars.len() > 0 && is_white_space(chars[chars.len() - 1])
        invariant
            trimmed_end(chars@) == trimmed_end(s@),
        decreases chars.len(),
    {
        let ghost before = chars@;
        let _ = chars.pop();
        assert(chars@ =~= before.drop_last());
    }
    let mut from: usize = 0;
    assert(chars@.skip(0) =~= chars@);
    while from < chars.len() && is_white_space(chars[from])
        invariant
            from <= chars@.len(),
            trimmed_start(chars@.skip(from as int)) == trimmed_start(chars@),
        decreases chars@.len() - from,
    {
        assert(chars@.skip(from as int).drop_first() =~= chars@.skip(from + 1));
        from = from + 1;
    }
    let mut v: Vec<char> = Vec::new();
    let ghost rest = chars@.skip(from as int);
    for i in from..chars.len()
        invariant
            from <= chars@.len(),
            v@ =~= chars@.subrange(from as int, i as int),
    {
        v.push(chars[i]);
    }
    assert(v@ =~= rest);
    v
}

/// `s` with small Latin letters made capital.
pub open spec fn ascii_uppercase(s: Seq<char>) -> Seq<char> {
    s.map_values(|c: char| ascii_upper(c))
}

/// `s` with Latin capitals made small.
pub open spec fn ascii_lowercase(s: Seq<char>) -> Seq<char> {
    s.map_values(|c: char| ascii_lower(c))
}

pub fn to_ascii_uppercase(s: &Vec<char>) -> (v: Vec<char>)
    ensures
        v@ == ascii_uppercase(s@),
{
    let mut v: Vec<char> = Vec::new();
    for i in 0..s.len()
        invariant
            v@ =~= ascii_uppercase(s@).take(i as int),
    {
        v.push(to_ascii_upper(s[i]));
    }
    assert(ascii_uppercase(s@).take(s@.len() as int) =~= ascii_uppercase(s@));
    v
}

pub fn to_ascii_lowercase(s: &Vec<char>) -> (v: Vec<char>)
    ensures
        v@ == ascii_lowercase(s@),
{
    let mut v: Vec<char> = Vec::new();
    for i in 0..s.len()
        invariant
            v@ =~= ascii_lowercase(s@).take(i as int),
    {
        v.push(to_ascii_lower(s[i]));
    }
    assert(ascii_lowercase(s@).take(s@.len() as int) =~= ascii_lowercase(s@));
    v
}

/// The decimal digits of `n`.
pub open spec fn decimal(n: nat) -> Seq<char>
    decreases n,
{
    let digit = (48 + n % 10) as char;
    if n < 10 {
        seq![digit]
    } else {
        decimal(n / 10).push(digit)
    }
}

/// Appends the decimal digits of `n`.
pub fn push_decimal(out: &mut String, n: u64)
    ensures
        final(out)@ == old(out)@ + decimal(n as nat),
    decreases n,
{
    let ghost start = out@;
    if n >= 10 {
        push_decimal(out, n / 10);
    }
    out.push((48 + (n % 10) as u8) as char);
    assert(out@ =~= start + decimal(n as nat));
}

/// Different numbers are written differently.
pub proof fn decimal_is_injective(a: nat, b: nat)
    requires
        decimal(a) == decimal(b),
    ensures
        a == b,
    decreases a,
{
    assert(decimal(a).last() == (48 + a % 10) as char);
    assert(decimal(b).last() == (48 + b % 10) as char);
    assert(((48 + a % 10) as char) as nat == 48 + a % 10);
    assert(((48 + b % 10) as char) as nat == 48 + b % 10);
    assert(a % 10 == b % 10);
    decimal_is_not_empty(a / 10);
    decimal_is_not_empty(b / 10);
    if a >= 10 && b >= 10 {
        assert(decimal(a).drop_last() =~= decimal(a / 10));
        assert(decimal(b).drop_last() =~= decimal(b / 10));
        decimal_is_injective(a / 10, b / 10);
    } else {
        assert(decimal(a).len() == decimal(b).len());
    }
}

proof fn decimal_is_not_empty(n: nat)
    ensures
        decimal(n).len() > 0,
{
}

/// What `str::to_lowercase` makes of a text.
pub uninterp spec fn lowercase(s: Seq<char>) -> Seq<char>;

/// `str::to_lowercase`: the text with every character made small by the
/// rules of Unicode, whatever the locale. Of ASCII text only the capitals
/// change.
#[verifier::external_body]
pub(crate) fn to_lowercase(s: &str) -> (r: String)
    ensures
        r@ == lowercase(s@),
        vstd::utf8::is_ascii_chars(s@) ==> r@ == ascii_lowercase(s@),
{
    s.to_lowercase()
}

/// What some strings spell.
pub open spec fn texts(v: Seq<String>) -> Seq<Seq<char>> {
    v.map_values(|s: String| s@)
}

/// Whether one of the strings is `s`.
pub fn contains_text(v: &Vec<String>, s: &str) -> (r: bool)
    ensures
        r == texts(v@).contains(s@),
{
    for i in 0..v.len()
        invariant
            forall|j: int| 0 <= j < i ==> (#[trigger] texts(v@)[j]) != s@,
    {
        if same_text(v[i].as_str(), s) {
            assert(texts(v@)[i as int] == s@);
            return true;
        }
    }
    false
}

/// Whether two lists of strings spell the same.
pub fn same_texts(a: &Vec<String>, b: &Vec<String>) -> (r: bool)
    ensures
        r == (texts(a@) == texts(b@)),
{
    if a.len() != b.len() {
        assert(texts(a@).len() != texts(b@).len());
        return false;
    }
    for i in 0..a.len()
        invariant
            a@.len() == b@.len(),
            forall|j: int| 0 <= j < i ==> (#[trigger] texts(a@)[j]) == texts(b@)[j],
    {
        if !same_text(a[i].as_str(), b[i].as_str()) {
            assert(texts(a@)[i as int] != texts(b@)[i as int]);
            return false;
        }
    }
    assert(texts(a@) =~= texts(b@));
    true
}

/// Copies strings.
pub fn copy_texts(v: &Vec<String>) -> (r: Vec<String>)
    ensures
        r@ == v@,
{
    let mut r: Vec<String> = Vec::new();
    for i in 0..v.len()
        invariant
            r@ =~= v@.take(i as int),
    {
        r.push(v[i].clone());
    }
    assert(v@.take(v@.len() as int) =~= v@);
    r
}

/// Whether `s` starts with `prefix`.
pub fn starts_with(s: &Vec<char>, prefix: &Vec<char>) -> (r: bool)
    ensures
        r == prefix@.is_prefix_of(s@),
{
    if prefix.len() > s.len() {
        return false;
    }
    for i in 0..prefix.len()
        invariant
            prefix@.len() <= s@.len(),
            forall|j: int| 0 <= j < i ==> prefix@[j] == s@[j],
    {
        if prefix[i] != s[i] {
            return false;
        }
    }
    assert(prefix@ =~= s@.subrange(0, prefix@.len() as int));
    true
}

/// `s` ends with `suffix`.
pub open spec fn ends_with(s: Seq<char>, suffix: Seq<char>) -> bool {
    suffix.len() <= s.len() && s.skip(s.len() - suffix.len()) == suffix
}

/// Whether `s` ends with `suffix`.
pub fn has_suffix(s: &str, suffix: &str) -> (r: bool)
    ensures
        r == ends_with(s@, suffix@),
{
    let a = chars_of(s);
    let b = chars_of(suffix);
    if b.len() > a.len() {
        return false;
    }
    let from: usize = a.len() - b.len();
    for i in 0..b.len()
        invariant
            from + b.len() == a.len(),
            a@ == s@,
            b@ == suffix@,
            forall|j: int| 0 <= j < i ==> a@[from + j] == b@[j],
    {
        if a[from + i] != b[i] {
            assert(a@.skip(from as int)[i as int] != b@[i as int]);
            return false;
        }
    }
    assert(a@.skip(from as int) =~= b@);
    true
}

/// `part` occurs in `s`.
pub open spec fn occurs(s: Seq<char>, part: Seq<char>) -> bool {
    exists|i: int| 0 <= i <= s.len() - part.len() && #[trigger] s.subrange(i, i + part.len()) == part
}

/// Whether `part` occurs in `s`.
pub fn contains_part(s: &Vec<char>, part: &Vec<char>) -> (r: bool)
    ensures
        r == occurs(s@, part@),
{
    if part.len() > s.len() {
        return false;
    }
    let last: usize = s.len() - part.len();
    let mut i: usize = 0;
    while i <= last
        invariant
            last == s@.len() - part@.len(),
            i <= last + 1,
            forall|k: int| 0 <= k < i ==> #[trigger] s@.subrange(k, k + part@.len()) != part@,
            s.len() >= part.len(),
        decreases last + 1 - i,
    {
        let mut j: usize = 0;
        while j < part.len() && s[i + j] == part[j]
            invariant
                j <= part@.len(),
                i <= last,
                last == s@.len() - part@.len(),
                s.len() >= part.len(),
                forall|k: int| 0 <= k < j ==> s@[i + k] == part@[k],
            decreases part@.len() - j,
        {
            j = j + 1;
        }
        if j == part.len() {
            assert(s@.subrange(i as int, i + part@.len()) =~= part@);
            return true;
        }
        assert(s@.subrange(i as int, i + part@.len())[j as int] != part@[j as int]);
        if i == last {
            return false;
        }
        i = i + 1;
    }
    false
}

/// `s` with every character for which `p` holds replaced by `by`.
pub open spec fn replaced(s: Seq<char>, p: spec_fn(char) -> bool, by: char) -> Seq<char> {
    s.map_values(|c: char| if p(c) { by } else { c })
}

/// The pieces of `s` between the characters for which `p` holds.
pub open spec fn pieces(s: Seq<char>, p: spec_fn(char) -> bool) -> Seq<Seq<char>>
    decreases s.len(),
{
    if s.len() == 0 {
        seq![Seq::empty()]
    } else {
        let earlier = pieces(s.drop_last(), p);
        if p(s.last()) {
            earlier.push(Seq::empty())
        } else {
            earlier.update(earlier.len() - 1, earlier.last().push(s.last()))
        }
    }
}

/// The pieces that are not empty.
pub open spec fn not_empty(v: Seq<Seq<char>>) -> Seq<Seq<char>>
    decreases v.len(),
{
    if v.len() == 0 {
        Seq::empty()
    } else if v.last().len() == 0 {
        not_empty(v.drop_last())
    } else {
        not_empty(v.drop_last()).push(v.last())
    }
}

pub proof fn pieces_exist(s: Seq<char>, p: spec_fn(char) -> bool)
    ensures
        pieces(s, p).len() > 0,
    decreases s.len(),
{
    if s.len() > 0 {
        pieces_exist(s.drop_last(), p);
    }
}

/// A text is its pieces with the separator between them, and no piece holds
/// the separator.
pub proof fn pieces_make_up_the_text(s: Seq<char>, sep: char, i: int)
    ensures
        joined_by(pieces(s, |c: char| c == sep), seq![sep]) == s,
        0 <= i < pieces(s, |c: char| c == sep).len() ==> !pieces(s, |c: char| c == sep)[i].contains(
            sep,
        ),
    decreases s.len(),
{
    let p = |c: char| c == sep;
    let v = pieces(s, p);
    pieces_exist(s, p);
    if s.len() == 0 {
        assert(joined_by(v, seq![sep]) =~= s);
    } else {
        let c = s.last();
        let earlier = pieces(s.drop_last(), p);
        pieces_exist(s.drop_last(), p);
        pieces_make_up_the_text(s.drop_last(), sep, i);
        assert(s =~= s.drop_last().push(c));
        if c == sep {
            assert(v.drop_last() =~= earlier);
            assert(joined_by(v, seq![sep]) =~= s);
        } else {
            assert(v.drop_last() =~= earlier.drop_last());
            assert(v.last() == earlier.last().push(c));
            assert(joined_by(v, seq![sep]) =~= s);
            if i == v.len() - 1 && v[i].contains(sep) {
                let k = choose|k: int| 0 <= k < v[i].len() && v[i][k] == sep;
                assert(earlier[i][k] == sep);
            }
        }
    }
}

/// Texts without the separator, joined by it, come apart again.
pub proof fn joined_texts_come_apart(v: Seq<Seq<char>>, sep: char)
    requires
        v.len() > 0,
        forall|i: int| 0 <= i < v.len() ==> !(#[trigger] v[i]).contains(sep),
    ensures
        pieces(joined_by(v, seq![sep]), |c: char| c == sep) == v,
    decreases v.len(),
{
    let p = |c: char| c == sep;
    if v.len() == 1 {
        separator_is_not_held(v[0], sep);
        word_adds_to_last_piece(Seq::empty(), v[0], p);
        assert(Seq::<char>::empty() + v[0] =~= v[0]);
        assert(pieces(Seq::empty(), p).drop_last().push(pieces(Seq::empty(), p).last() + v[0])
            =~= v);
    } else {
        let start = joined_by(v.drop_last(), seq![sep]);
        joined_texts_come_apart(v.drop_last(), sep);
        let opened = start + seq![sep];
        assert(opened.drop_last() =~= start);
        assert(pieces(opened, p) =~= v.drop_last().push(Seq::empty()));
        separator_is_not_held(v.last(), sep);
        word_adds_to_last_piece(opened, v.last(), p);
        assert(joined_by(v, seq![sep]) =~= opened + v.last());
        assert(Seq::<char>::empty() + v.last() =~= v.last());
        assert(pieces(opened, p).drop_last().push(pieces(opened, p).last() + v.last()) =~= v);
    }
}

proof fn separator_is_not_held(s: Seq<char>, sep: char)
    requires
        !s.contains(sep),
    ensures
        forall|j: int| 0 <= j < s.len() ==> #[trigger] s[j] != sep,
{
    assert forall|j: int| 0 <= j < s.len() implies #[trigger] s[j] != sep by {
        assert(s.contains(s[j]));
    }
}

/// The words of `s`: its pieces between white space.
pub open spec fn words(s: Seq<char>) -> Seq<Seq<char>> {
    not_empty(pieces(s, |c: char| white_space(c)))
}

/// What some lists of characters spell.
pub open spec fn spelled(v: Seq<Vec<char>>) -> Seq<Seq<char>> {
    v.map_values(|s: Vec<char>| s@)
}

/// The words of `s`.
pub fn split_whitespace(s: &str) -> (r: Vec<Vec<char>>)
    ensures
        spelled(r@) == words(s@),
{
    let chars = chars_of(s);
    let ghost p = |c: char| white_space(c);
    let mut r: Vec<Vec<char>> = Vec::new();
    let mut word: Vec<char> = Vec::new();
    assert(chars@.take(0) =~= Seq::empty());
    assert(pieces(chars@.take(0), p).drop_last() =~= Seq::empty());
    assert(spelled(r@) =~= Seq::empty());
    for i in 0..chars.len()
        invariant
            p == (|c: char| white_space(c)),
            ({
                let so_far = pieces(chars@.take(i as int), p);
                &&& so_far.len() > 0
                &&& word@ == so_far.last()
                &&& spelled(r@) == not_empty(so_far.drop_last())
            }),
    {
        let c: char = chars[i];
        let ghost before = pieces(chars@.take(i as int), p);
        let ghost after = pieces(chars@.take(i + 1), p);
        let ghost old_r = r@;
        proof {
            assert(chars@.take(i + 1).drop_last() =~= chars@.take(i as int));
        }
        if is_white_space(c) {
            assert(after == before.push(Seq::empty()));
            assert(after.drop_last() =~= before);
            if word.len() > 0 {
                r.push(word);
                assert(spelled(r@) =~= spelled(old_r).push(word@));
            }
            word = Vec::new();
            assert(spelled(r@) == not_empty(after.drop_last()));
        } else {
            word.push(c);
            assert(after.drop_last() =~= before.drop_last());
        }
    }
    assert(chars@.take(chars@.len() as int) =~= chars@);
    let ghost all = pieces(chars@, p);
    let ghost old_r = r@;
    if word.len() > 0 {
        r.push(word);
        assert(spelled(r@) =~= spelled(old_r).push(word@));
    }
    assert(spelled(r@) == not_empty(all));
    r
}

/// `v` with `sep` between its items.
pub open spec fn joined_by(v: Seq<Seq<char>>, sep: Seq<char>) -> Seq<char>
    decreases v.len(),
{
    if v.len() == 0 {
        Seq::empty()
    } else if v.len() == 1 {
        v[0]
    } else {
        joined_by(v.drop_last(), sep) + sep + v.last()
    }
}

/// Joins texts with `sep` between them.
pub fn join_texts(v: &Vec<String>, sep: &str) -> (r: String)
    ensures
        r@ == joined_by(texts(v@), sep@),
{
    let mut r = String::new();
    assert(texts(v@).take(0) =~= Seq::empty());
    for i in 0..v.len()
        invariant
            r@ == joined_by(texts(v@).take(i as int), sep@),
    {
        let ghost t = texts(v@);
        assert(t.take(i + 1).drop_last() =~= t.take(i as int));
        if i > 0 {
            r.append(sep);
        }
        r.append(v[i].as_str());
        assert(r@ =~= joined_by(t.take(i + 1), sep@));
    }
    assert(texts(v@).take(v@.len() as int) =~= texts(v@));
    r
}

/// The blanks are tab, line feed, vertical tab, form feed, carriage return,
/// space, next line, no-break space, the spaces of U+1680 and U+2000 to
/// U+200A, the separators of U+2028 and U+2029, and the spaces of U+202F,
/// U+205F and U+3000.
pub proof fn blanks_are_white_space(c: char)
    ensures
        white_space(c) <==> c == '\t' || c == '\n' || c == '\u{b}' || c == '\u{c}' || c == '\r' || c
            == ' ' || c == '\u{85}' || c == '\u{a0}' || c == '\u{1680}' || '\u{2000}' <= c <= '\u{200a}'
            || c == '\u{2028}' || c == '\u{2029}' || c == '\u{202f}' || c == '\u{205f}' || c
            == '\u{3000}',
{
}

/// White space around a text is left out, and nothing of the text.
pub proof fn trimming_leaves_the_text(before: Seq<char>, s: Seq<char>, after: Seq<char>)
    requires
        forall|i: int| 0 <= i < before.len() ==> white_space(#[trigger] before[i]),
        forall|i: int| 0 <= i < after.len() ==> white_space(#[trigger] after[i]),
        s.len() > 0 ==> !white_space(s[0]) && !white_space(s.last()),
    ensures
        trimmed(before + s + after) == s,
{
    trimmed_end_leaves(before + s, after);
    if s.len() > 0 {
        assert((before + s).last() == s.last());
        trimmed_start_leaves(before, s);
    } else {
        assert(before + s =~= before);
        let none = Seq::<char>::empty();
        assert(none + before =~= before);
        trimmed_end_leaves(none, before);
        assert(s =~= none);
    }
}

proof fn trimmed_end_leaves(s: Seq<char>, after: Seq<char>)
    requires
        forall|i: int| 0 <= i < after.len() ==> white_space(#[trigger] after[i]),
    ensures
        trimmed_end(s + after) == trimmed_end(s),
        s.len() == 0 || !white_space(s.last()) ==> trimmed_end(s + after) == s,
    decreases after.len(),
{
    if after.len() == 0 {
        assert(s + after =~= s);
    } else {
        let rest = after.drop_last();
        assert forall|i: int| 0 <= i < rest.len() implies white_space(#[trigger] rest[i]) by {
            assert(rest[i] == after[i]);
        }
        assert((s + after).drop_last() =~= s + rest);
        assert(white_space(after[after.len() - 1]));
        trimmed_end_leaves(s, rest);
    }
}

proof fn trimmed_start_leaves(before: Seq<char>, s: Seq<char>)
    requires
        forall|i: int| 0 <= i < before.len() ==> white_space(#[trigger] before[i]),
        s.len() > 0,
        !white_space(s[0]),
    ensures
        trimmed_start(before + s) == s,
    decreases before.len(),
{
    if before.len() == 0 {
        assert(before + s =~= s);
    } else {
        let rest = before.drop_first();
        assert forall|i: int| 0 <= i < rest.len() implies white_space(#[trigger] rest[i]) by {
            assert(rest[i] == before[i + 1]);
        }
        assert((before + s).drop_first() =~= rest + s);
        assert(white_space(before[0]));
        trimmed_start_leaves(rest, s);
    }
}

/// Separators at the end of a path are left out, and nothing else.
pub proof fn separators_are_left_out(s: Seq<char>, after: Seq<char>)
    requires
        s.len() == 0 || (s.last() != '/' && s.last() != '\\'),
        forall|i: int| 0 <= i < after.len() ==> #[trigger] after[i] == '/' || after[i] == '\\',
    ensures
        without_trailing_separators(s + after) == s,
    decreases after.len(),
{
    if after.len() == 0 {
        assert(s + after =~= s);
    } else {
        let rest = after.drop_last();
        assert forall|i: int| 0 <= i < rest.len() implies #[trigger] rest[i] == '/' || rest[i]
            == '\\' by {
            assert(rest[i] == after[i]);
        }
        assert((s + after).drop_last() =~= s + rest);
        assert(after[after.len() - 1] == after.last());
        separators_are_left_out(s, rest);
    }
}

/// A letter and its capital are 32 apart; making a text small or capital
/// changes nothing but letters, and one undoes the other.
pub proof fn letters_have_two_cases(c: char)
    ensures
        'A' <= c <= 'Z' ==> ascii_lower(c) as int == c as int + 32 && ascii_upper(c) == c,
        'a' <= c <= 'z' ==> ascii_upper(c) as int == c as int - 32 && ascii_lower(c) == c,
        !('A' <= c <= 'Z') && !('a' <= c <= 'z') ==> ascii_lower(c) == c && ascii_upper(c) == c,
        ascii_lower(ascii_upper(c)) == ascii_lower(c),
        ascii_upper(ascii_lower(c)) == ascii_upper(c),
        ascii_letter(c) <==> ascii_lower(c) != ascii_upper(c),
{
}

/// The number that decimal digits spell.
pub open spec fn decimal_value(s: Seq<char>) -> nat
    decreases s.len(),
{
    if s.len() == 0 {
        0
    } else {
        10 * decimal_value(s.drop_last()) + (s.last() as nat - 48) as nat
    }
}

/// A number is written in digits that spell it, without a zero in front.
pub proof fn decimal_spells_the_number(n: nat)
    ensures
        decimal_value(decimal(n)) == n,
        decimal(n).len() > 0,
        forall|i: int| 0 <= i < decimal(n).len() ==> '0' <= #[trigger] decimal(n)[i] <= '9',
        n > 0 ==> decimal(n)[0] != '0',
        n == 0 ==> decimal(n).len() == 1,
    decreases n,
{
    let digit = (48 + n % 10) as char;
    assert(digit as nat == 48 + n % 10);
    if n < 10 {
        assert(decimal(n).drop_last() =~= Seq::empty());
        assert(decimal_value(Seq::<char>::empty()) == 0);
    } else {
        decimal_spells_the_number(n / 10);
        assert(decimal(n).drop_last() =~= decimal(n / 10));
    }
}

/// Words without blanks, joined by one, come apart again.
pub proof fn words_come_apart(v: Seq<Seq<char>>, blank: char)
    requires
        white_space(blank),
        forall|i: int| 0 <= i < v.len() ==> (#[trigger] v[i]).len() > 0,
        forall|i: int, j: int|
            0 <= i < v.len() && 0 <= j < v[i].len() ==> !white_space(#[trigger] v[i][j]),
    ensures
        words(joined_by(v, seq![blank])) == v,
{
    let p = |c: char| white_space(c);
    if v.len() == 0 {
        assert(pieces(Seq::<char>::empty(), p) =~= seq![Seq::<char>::empty()]);
        assert(seq![Seq::<char>::empty()].drop_last() =~= Seq::empty());
        reveal_with_fuel(not_empty, 2);
        assert(words(joined_by(v, seq![blank])) =~= v);
    } else {
        blanks_part_words(v, blank);
        all_are_not_empty(v);
    }
}

/// A list without empty texts keeps all of them.
pub proof fn all_are_not_empty(v: Seq<Seq<char>>)
    requires
        forall|i: int| 0 <= i < v.len() ==> (#[trigger] v[i]).len() > 0,
    ensures
        not_empty(v) == v,
    decreases v.len(),
{
    if v.len() > 0 {
        let rest = v.drop_last();
        assert forall|i: int| 0 <= i < rest.len() implies (#[trigger] rest[i]).len() > 0 by {
            assert(rest[i] == v[i]);
        }
        all_are_not_empty(rest);
        assert(v[v.len() - 1].len() > 0);
        assert(not_empty(v) =~= v);
    } else {
        assert(not_empty(v) =~= v);
    }
}

proof fn blanks_part_words(v: Seq<Seq<char>>, blank: char)
    requires
        v.len() > 0,
        white_space(blank),
        forall|i: int, j: int|
            0 <= i < v.len() && 0 <= j < v[i].len() ==> !white_space(#[trigger] v[i][j]),
    ensures
        pieces(joined_by(v, seq![blank]), |c: char| white_space(c)) == v,
    decreases v.len(),
{
    let p = |c: char| white_space(c);
    let none = Seq::<char>::empty();
    let word = v.last();
    assert forall|j: int| 0 <= j < word.len() implies !p(#[trigger] word[j]) by {
        assert(!white_space(v[v.len() - 1][j]));
    }
    if v.len() == 1 {
        word_adds_to_last_piece(none, word, p);
        assert(none + word =~= word);
        assert(pieces(none, p) =~= seq![none]);
        assert(pieces(none, p).drop_last().push(pieces(none, p).last() + word) =~= v);
    } else {
        let earlier = v.drop_last();
        assert forall|i: int, j: int| 0 <= i < earlier.len() && 0 <= j < earlier[i].len() implies
            !white_space(#[trigger] earlier[i][j]) by {
            assert(!white_space(v[i][j]));
        }
        blanks_part_words(earlier, blank);
        let start = joined_by(earlier, seq![blank]);
        let opened = start + seq![blank];
        assert(opened.drop_last() =~= start);
        assert(pieces(opened, p) =~= earlier.push(none));
        word_adds_to_last_piece(opened, word, p);
        assert(joined_by(v, seq![blank]) =~= opened + word);
        assert(none + word =~= word);
        assert(pieces(opened, p).drop_last().push(pieces(opened, p).last() + word) =~= v);
    }
}

proof fn word_adds_to_last_piece(before: Seq<char>, s: Seq<char>, p: spec_fn(char) -> bool)
    requires
        forall|j: int| 0 <= j < s.len() ==> !p(#[trigger] s[j]),
    ensures
        pieces(before + s, p) == pieces(before, p).drop_last().push(pieces(before, p).last() + s),
    decreases s.len(),
{
    pieces_exist(before, p);
    let v = pieces(before, p);
    if s.len() == 0 {
        assert(before + s =~= before);
        assert(v.last() + s =~= v.last());
        assert(v.drop_last().push(v.last() + s) =~= v);
    } else {
        let whole = before + s;
        let rest = s.drop_last();
        assert(!p(s[s.len() - 1]));
        assert(whole.drop_last() =~= before + rest);
        assert forall|j: int| 0 <= j < rest.len() implies !p(#[trigger] rest[j]) by {
            assert(rest[j] == s[j]);
        }
        word_adds_to_last_piece(before, rest, p);
        assert((v.last() + rest).push(s.last()) =~= v.last() + s);
        assert(pieces(whole, p) =~= v.drop_last().push(v.last() + s));
    }
}

} // verus!
