//! Encodings of log files, line boundaries and the text of lines.

use crate::text;
use crate::text::{same_text, string_of, to_ascii_uppercase, trim, utf8_text};
use vstd::prelude::*;
use vstd::slice::slice_subrange;

verus! {

pub const MAX_LINE_BYTES: usize = 65_536;

/// The encodings that a log can have.
#[derive(Debug, Clone, Copy, PartialEq, Eq, Structural)]
pub enum TextEncoding {
    Utf8,
    Gbk,
    Gb18030,
    Utf16Le,
    Utf16Be,
}

impl TextEncoding {
    /// Two bytes make one code unit.
    pub open spec fn wide(self) -> bool {
        self == TextEncoding::Utf16Le || self == TextEncoding::Utf16Be
    }

    /// The code unit that two bytes make.
    pub open spec fn unit(self, first: u8, second: u8) -> int {
        if self == TextEncoding::Utf16Be {
            256 * first + second
        } else {
            first + 256 * second
        }
    }

    pub fn is_wide(self) -> (r: bool)
        ensures
            r == self.wide(),
    {
        match self {
            TextEncoding::Utf16Le | TextEncoding::Utf16Be => true,
            _ => false,
        }
    }

    fn code_unit(self, first: u8, second: u8) -> (u: u16)
        ensures
            u == self.unit(first, second),
    {
        match self {
            TextEncoding::Utf16Be => 256 * first as u16 + second as u16,
            _ => first as u16 + 256 * second as u16,
        }
    }

    /// The name under which the encoding is shown.
    pub open spec fn label(self) -> Seq<char> {
        match self {
            TextEncoding::Utf8 => "UTF-8"@,
            TextEncoding::Gbk => "GBK"@,
            TextEncoding::Gb18030 => "GB18030"@,
            TextEncoding::Utf16Le => "UTF-16LE"@,
            TextEncoding::Utf16Be => "UTF-16BE"@,
        }
    }

    pub fn encoding_name(self) -> (s: String)
        ensures
            s@ == self.label(),
    {
        match self {
            TextEncoding::Utf8 => "UTF-8".to_owned(),
            TextEncoding::Gbk => "GBK".to_owned(),
            TextEncoding::Gb18030 => "GB18030".to_owned(),
            TextEncoding::Utf16Le => "UTF-16LE".to_owned(),
            TextEncoding::Utf16Be => "UTF-16BE".to_owned(),
        }
    }

    /// The encoding with a name, whatever its case and the space around it.
    pub fn encoding_by_name(name: &str) -> (r: Option<TextEncoding>)
        ensures
            r == named_encoding(text::ascii_uppercase(text::trimmed(name@))),
    {
        let name = string_of(&to_ascii_uppercase(&trim(name)));
        let name = name.as_str();
        if same_text(name, "UTF-8") || same_text(name, "UTF8") {
            Some(TextEncoding::Utf8)
        } else if same_text(name, "GBK") {
            Some(TextEncoding::Gbk)
        } else if same_text(name, "GB18030") {
            Some(TextEncoding::Gb18030)
        } else if same_text(name, "UTF-16LE") || same_text(name, "UTF16LE") {
            Some(TextEncoding::Utf16Le)
        } else if same_text(name, "UTF-16BE") || same_text(name, "UTF16BE") {
            Some(TextEncoding::Utf16Be)
        } else {
            None
        }
    }
}

/// The encoding that a name in capitals means.
pub open spec fn named_encoding(name: Seq<char>) -> Option<TextEncoding> {
    if name == "UTF-8"@ || name == "UTF8"@ {
        Some(TextEncoding::Utf8)
    } else if name == "GBK"@ {
        Some(TextEncoding::Gbk)
    } else if name == "GB18030"@ {
        Some(TextEncoding::Gb18030)
    } else if name == "UTF-16LE"@ || name == "UTF16LE"@ {
        Some(TextEncoding::Utf16Le)
    } else if name == "UTF-16BE"@ || name == "UTF16BE"@ {
        Some(TextEncoding::Utf16Be)
    } else {
        None
    }
}

/// `b` starts with the UTF-8 byte order mark.
pub open spec fn has_utf8_mark(b: Seq<u8>) -> bool {
    b.len() >= 3 && b[0] == 0xef && b[1] == 0xbb && b[2] == 0xbf
}

pub open spec fn has_utf16_le_mark(b: Seq<u8>) -> bool {
    b.len() >= 2 && b[0] == 0xff && b[1] == 0xfe
}

pub open spec fn has_utf16_be_mark(b: Seq<u8>) -> bool {
    b.len() >= 2 && b[0] == 0xfe && b[1] == 0xff
}

/// `b` is what a character begins with in UTF-8, without its last bytes.
pub open spec fn starts_character(b: Seq<u8>) -> bool {
    b.len() > 0 && exists|rest: Seq<u8>|
        rest.len() > 0 && #[trigger] vstd::utf8::valid_first_scalar(b + rest)
            && vstd::utf8::length_of_first_scalar(b + rest) == b.len() + rest.len()
}

/// `b` is UTF-8 up to `k`, where a character begins whose last bytes are
/// missing.
pub open spec fn cut_at(b: Seq<u8>, k: int) -> bool {
    0 <= k < b.len() && vstd::utf8::valid_utf8(b.take(k)) && starts_character(b.skip(k))
}

/// How many bytes the character lacks that begins `back` bytes before the end.
pub open spec fn lacking(b: Seq<u8>, back: int) -> nat {
    (vstd::utf8::length_of_first_scalar(b.skip(b.len() - back)) - back) as nat
}

/// How many more bytes it takes to tell whether a sample is UTF-8: those that
/// a character at its end lacks.
pub open spec fn missing(sample: Seq<u8>) -> nat {
    if has_utf8_mark(sample) || vstd::utf8::valid_utf8(sample) {
        0
    } else if cut_at(sample, sample.len() - 1) {
        lacking(sample, 1)
    } else if cut_at(sample, sample.len() - 2) {
        lacking(sample, 2)
    } else if cut_at(sample, sample.len() - 3) {
        lacking(sample, 3)
    } else {
        0
    }
}

/// The encoding that the start of a file suggests.
pub open spec fn detected(sample: Seq<u8>) -> TextEncoding {
    if has_utf8_mark(sample) {
        TextEncoding::Utf8
    } else if has_utf16_le_mark(sample) {
        TextEncoding::Utf16Le
    } else if has_utf16_be_mark(sample) {
        TextEncoding::Utf16Be
    } else if vstd::utf8::valid_utf8(sample) {
        TextEncoding::Utf8
    } else {
        TextEncoding::Gb18030
    }
}

/// `x` can stand behind the first byte of a character of three or four bytes.
spec fn second_fits(lead: u8, x: u8) -> bool {
    0x80 <= x <= 0xbf && (lead == 0xe0 ==> x >= 0xa0) && (lead == 0xed ==> x <= 0x9f) && (lead
        == 0xf0 ==> x >= 0x90) && (lead == 0xf4 ==> x <= 0x8f)
}

proof fn two_bytes_fit(lead: u8, x: u8)
    requires
        0xc0 <= lead <= 0xdf,
        0x80 <= x <= 0xbf,
    ensures
        vstd::utf8::valid_first_scalar(seq![lead, x]) == (lead >= 0xc2),
{
    assert({
        let c = vstd::utf8::codepoint_width_2(lead, x);
        (0x80 <= c) == (lead >= 0xc2) && c < 0x800
    }) by (bit_vector)
        requires
            0xc0 <= lead <= 0xdf,
            0x80 <= x <= 0xbf,
    ;
}

proof fn three_bytes_fit(lead: u8, x: u8, y: u8)
    requires
        0xe0 <= lead <= 0xef,
        0x80 <= x <= 0xbf,
        0x80 <= y <= 0xbf,
    ensures
        vstd::utf8::valid_first_scalar(seq![lead, x, y]) == second_fits(lead, x),
{
    assert({
        let c = vstd::utf8::codepoint_width_3(lead, x, y);
        (0x800 <= c && !(0xd800 <= c && c <= 0xdfff)) == ((lead != 0xe0 || x >= 0xa0) && (lead
            != 0xed || x <= 0x9f))
    }) by (bit_vector)
        requires
            0xe0 <= lead <= 0xef,
            0x80 <= x <= 0xbf,
            0x80 <= y <= 0xbf,
    ;
}

proof fn four_bytes_fit(lead: u8, x: u8, y: u8, z: u8)
    requires
        0xf0 <= lead <= 0xf7,
        0x80 <= x <= 0xbf,
        0x80 <= y <= 0xbf,
        0x80 <= z <= 0xbf,
    ensures
        vstd::utf8::valid_first_scalar(seq![lead, x, y, z]) == (lead <= 0xf4 && second_fits(lead, x)),
{
    assert({
        let c = vstd::utf8::codepoint_width_4(lead, x, y, z);
        (0x10000 <= c && c <= 0x10ffff) == (lead <= 0xf4 && (lead != 0xf0 || x >= 0x90) && (lead
            != 0xf4 || x <= 0x8f))
    }) by (bit_vector)
        requires
            0xf0 <= lead <= 0xf7,
            0x80 <= x <= 0xbf,
            0x80 <= y <= 0xbf,
            0x80 <= z <= 0xbf,
    ;
}

/// The bytes that a character can begin with.
spec fn start_fits(b: Seq<u8>) -> bool {
    ||| b.len() == 1 && 0xc2 <= b[0] <= 0xf4
    ||| b.len() == 2 && 0xe0 <= b[0] <= 0xf4 && second_fits(b[0], b[1])
    ||| b.len() == 3 && 0xf0 <= b[0] <= 0xf4 && second_fits(b[0], b[1]) && 0x80 <= b[2] <= 0xbf
}

proof fn fitting_start(b: Seq<u8>)
    ensures
        starts_character(b) == start_fits(b),
{
    if starts_character(b) {
        let rest = choose|rest: Seq<u8>|
            rest.len() > 0 && #[trigger] vstd::utf8::valid_first_scalar(b + rest)
                && vstd::utf8::length_of_first_scalar(b + rest) == b.len() + rest.len();
        let c = b + rest;
        assert(c[0] == b[0]);
        if c.len() == 2 {
            assert(c =~= seq![c[0], c[1]]);
            two_bytes_fit(c[0], c[1]);
        } else if c.len() == 3 {
            assert(c =~= seq![c[0], c[1], c[2]]);
            three_bytes_fit(c[0], c[1], c[2]);
        } else {
            assert(c =~= seq![c[0], c[1], c[2], c[3]]);
            four_bytes_fit(c[0], c[1], c[2], c[3]);
        }
    }
    if start_fits(b) {
        let x = if b.len() > 1 {
            b[1]
        } else if b[0] == 0xe0 {
            0xa0u8
        } else if b[0] == 0xf0 {
            0x90u8
        } else {
            0x80u8
        };
        let y = if b.len() > 2 {
            b[2]
        } else {
            0x80u8
        };
        let c = if b[0] <= 0xdf {
            seq![b[0], x]
        } else if b[0] <= 0xef {
            seq![b[0], x, y]
        } else {
            seq![b[0], x, y, 0x80u8]
        };
        if b[0] <= 0xdf {
            two_bytes_fit(b[0], x);
        } else if b[0] <= 0xef {
            three_bytes_fit(b[0], x, y);
        } else {
            four_bytes_fit(b[0], x, y, 0x80u8);
        }
        let rest = c.skip(b.len() as int);
        assert(b + rest =~= c);
        assert(rest.len() > 0 && vstd::utf8::valid_first_scalar(b + rest));
    }
}

fn is_character_start(b: &[u8]) -> (r: bool)
    ensures
        r == starts_character(b@),
{
    proof {
        fitting_start(b@);
    }
    if b.len() == 0 || b.len() > 3 {
        return false;
    }
    let lead: u8 = b[0];
    if b.len() == 1 {
        return 0xc2 <= lead && lead <= 0xf4;
    }
    let x: u8 = b[1];
    let second: bool = 0x80 <= x && x <= 0xbf && (lead != 0xe0 || x >= 0xa0) && (lead != 0xed || x
        <= 0x9f) && (lead != 0xf0 || x >= 0x90) && (lead != 0xf4 || x <= 0x8f);
    if b.len() == 2 {
        0xe0 <= lead && lead <= 0xf4 && second
    } else {
        0xf0 <= lead && lead <= 0xf4 && second && 0x80 <= b[2] && b[2] <= 0xbf
    }
}

/// How many bytes the character lacks that begins `back` bytes before the
/// end, if `b` was cut there.
fn lacking_bytes(b: &[u8], back: usize) -> (r: Option<usize>)
    requires
        1 <= back <= 3,
    ensures
        r is Some <==> cut_at(b@, b@.len() - back),
        r is Some ==> r->0 == lacking(b@, back as int) && 1 <= r->0 <= 3,
{
    if b.len() < back {
        return None;
    }
    let k: usize = b.len() - back;
    assert(b@.subrange(k as int, b@.len() as int) =~= b@.skip(k as int));
    assert(b@.subrange(0, k as int) =~= b@.take(k as int));
    let tail = slice_subrange(b, k, b.len());
    if !is_character_start(tail) || utf8_text(slice_subrange(b, 0, k)).is_none() {
        return None;
    }
    proof {
        fitting_start(b@.skip(k as int));
    }
    let length: usize = if tail[0] < 0xe0 {
        2
    } else if tail[0] < 0xf0 {
        3
    } else {
        4
    };
    Some(length - back)
}

/// How many more bytes it takes to tell whether a sample is UTF-8.
pub fn missing_bytes(sample: &[u8]) -> (n: usize)
    ensures
        n == missing(sample@),
        n <= 3,
{
    if starts_with_3(sample, 0xef, 0xbb, 0xbf) || utf8_text(sample).is_some() {
        return 0;
    }
    match lacking_bytes(sample, 1) {
        Some(n) => n,
        None => match lacking_bytes(sample, 2) {
            Some(n) => n,
            None => match lacking_bytes(sample, 3) {
                Some(n) => n,
                None => 0,
            },
        },
    }
}

/// Wherever a text in UTF-8 was cut: with the bytes that are said to be
/// missing, which the text has, its start is taken for UTF-8, and no more are
/// missing.
pub proof fn start_of_text_is_utf8(text: Seq<u8>, k: int)
    requires
        vstd::utf8::valid_utf8(text),
        0 <= k <= text.len(),
    ensures
        k + missing(text.take(k)) <= text.len(),
        detected(text.take(k + missing(text.take(k)))) == TextEncoding::Utf8,
        missing(text.take(k + missing(text.take(k)))) == 0,
{
    let b = text.take(k);
    if has_utf8_mark(b) {
    } else if vstd::utf8::valid_utf8(b) {
        starts_as_utf8(b);
    } else {
        let j = cut_inside_text(text, k);
        fitting_start(b.skip(j));
        assert forall|i: int| cut_at(b, i) implies i == j by {
            only_one_cut(b, i, j);
        }
        assert(b.skip(j)[0] == text.skip(j)[0]);
        let more = text.take(k + missing(b));
        assert(b.skip(b.len() - (k - j)) =~= b.skip(j));
        assert(k + missing(b) == j + vstd::utf8::length_of_first_scalar(text.skip(j)));
        starts_as_utf8(more);
    }
}

/// Whatever bytes follow a sample, so many as are missing are enough: then it
/// has decided, and with fewer only the rest of them is missing.
pub proof fn missing_bytes_are_enough(sample: Seq<u8>, more: Seq<u8>)
    requires
        more.len() <= missing(sample),
    ensures
        missing(sample + more) == 0 || missing(sample + more) == missing(sample) - more.len(),
{
    let longer = sample + more;
    if missing(sample) > 0 && missing(longer) > 0 {
        let back: int = if cut_at(sample, sample.len() - 1) {
            1
        } else if cut_at(sample, sample.len() - 2) {
            2
        } else {
            3
        };
        let j = sample.len() - back;
        let back_then: int = if cut_at(longer, longer.len() - 1) {
            1
        } else if cut_at(longer, longer.len() - 2) {
            2
        } else {
            3
        };
        let i = longer.len() - back_then;
        fitting_start(sample.skip(j));
        fitting_start(longer.skip(i));
        assert(longer[j] == sample[j]);
        assert(sample.skip(j)[0] == sample[j]);
        assert(longer.skip(i)[0] == longer[i]);
        if i < j {
            assert(longer.skip(i)[j - i] == longer[j]);
        } else if j < i {
            let c = longer.take(i);
            assert(c[j] == sample[j]);
            vstd::utf8::is_char_boundary_iff_not_is_continuation_byte(c, j);
            vstd::utf8::valid_utf8_split(c, j);
            let part = c.subrange(j, c.len() as int);
            assert(part[0] == sample[j]);
            assert(vstd::utf8::valid_first_scalar(part));
        }
    } else {
        assert(missing(sample) == 0 ==> longer =~= sample);
    }
}

/// What is UTF-8 has no mark of UTF-16.
proof fn starts_as_utf8(b: Seq<u8>)
    requires
        vstd::utf8::valid_utf8(b),
    ensures
        detected(b) == TextEncoding::Utf8,
{
    if b.len() > 0 {
        assert(vstd::utf8::valid_first_scalar(b));
    }
}

proof fn only_one_cut(b: Seq<u8>, i: int, j: int)
    requires
        cut_at(b, i),
        cut_at(b, j),
    ensures
        i == j,
{
    fitting_start(b.skip(i));
    fitting_start(b.skip(j));
    if i < j {
        assert(b.skip(j)[0] == b.skip(i)[j - i]);
    } else if j < i {
        assert(b.skip(i)[0] == b.skip(j)[i - j]);
    }
}

/// Where the character begins inside which a text was cut.
proof fn cut_inside_text(text: Seq<u8>, k: int) -> (j: int)
    requires
        vstd::utf8::valid_utf8(text),
        0 <= k <= text.len(),
    ensures
        vstd::utf8::valid_utf8(text.take(k)) || {
            let end = j + vstd::utf8::length_of_first_scalar(text.skip(j));
            &&& cut_at(text.take(k), j)
            &&& end <= text.len()
            &&& vstd::utf8::valid_utf8(text.take(end))
        },
    decreases text.len(),
{
    let b = text.take(k);
    if k == 0 {
        return 0;
    }
    let n = vstd::utf8::length_of_first_scalar(text);
    if k < n {
        let rest = text.subrange(k, n);
        let c = b + rest;
        assert(c =~= text.take(n));
        assert(vstd::utf8::valid_first_scalar(b + rest));
        assert(b.skip(0) =~= b);
        assert(vstd::utf8::valid_utf8(b.take(0)));
        assert(text.skip(0) =~= text);
        assert(vstd::utf8::length_of_first_scalar(c) == n);
        assert(vstd::utf8::pop_first_scalar(c) =~= Seq::empty());
        assert(vstd::utf8::valid_utf8(Seq::empty()));
        assert(vstd::utf8::valid_utf8(c));
        assert(starts_character(b));
        assert(cut_at(b, 0));
        0
    } else {
        let others = vstd::utf8::pop_first_scalar(text);
        let i = cut_inside_text(others, k - n);
        assert(vstd::utf8::valid_first_scalar(b));
        assert(vstd::utf8::pop_first_scalar(b) =~= others.take(k - n));
        if !vstd::utf8::valid_utf8(others.take(k - n)) {
            let head = b.take(n + i);
            assert(vstd::utf8::valid_first_scalar(head));
            assert(vstd::utf8::pop_first_scalar(head) =~= others.take(k - n).take(i));
            assert(b.skip(n + i) =~= others.take(k - n).skip(i));
            assert(text.skip(n + i) =~= others.skip(i));
            let end = i + vstd::utf8::length_of_first_scalar(others.skip(i));
            let more = text.take(n + end);
            assert(vstd::utf8::valid_first_scalar(more));
            assert(vstd::utf8::pop_first_scalar(more) =~= others.take(end));
            assert(vstd::utf8::valid_utf8(more));
            assert(vstd::utf8::valid_utf8(head));
            assert(cut_at(b, n + i));
        }
        n + i
    }
}

fn starts_with_3(b: &[u8], x: u8, y: u8, z: u8) -> (r: bool)
    ensures
        r == (b@.len() >= 3 && b@[0] == x && b@[1] == y && b@[2] == z),
{
    b.len() >= 3 && b[0] == x && b[1] == y && b[2] == z
}

fn starts_with_2(b: &[u8], x: u8, y: u8) -> (r: bool)
    ensures
        r == (b@.len() >= 2 && b@[0] == x && b@[1] == y),
{
    b.len() >= 2 && b[0] == x && b[1] == y
}

/// The encoding that the start of a file suggests.
pub fn detect_encoding(sample: &[u8]) -> (e: TextEncoding)
    ensures
        e == detected(sample@),
{
    if starts_with_3(sample, 0xef, 0xbb, 0xbf) {
        TextEncoding::Utf8
    } else if starts_with_2(sample, 0xff, 0xfe) {
        TextEncoding::Utf16Le
    } else if starts_with_2(sample, 0xfe, 0xff) {
        TextEncoding::Utf16Be
    } else {
        match utf8_text(sample) {
            Some(_) => TextEncoding::Utf8,
            None => TextEncoding::Gb18030,
        }
    }
}

/// A line ends with the last byte of `c`.
pub open spec fn ends_line(e: TextEncoding, c: Seq<u8>) -> bool {
    if e.wide() {
        c.len() >= 2 && c.len() % 2 == 0 && e.unit(c[c.len() - 2], c[c.len() - 1]) == 10
    } else {
        c.len() >= 1 && c[c.len() - 1] == 10
    }
}

/// Where the lines of `c` end that are ended by a line feed.
pub open spec fn line_ends(e: TextEncoding, c: Seq<u8>) -> Seq<u64>
    decreases c.len(),
{
    if c.len() == 0 {
        Seq::empty()
    } else if ends_line(e, c) {
        line_ends(e, c.drop_last()).push(c.len() as u64)
    } else {
        line_ends(e, c.drop_last())
    }
}

/// Where lines end in `piece`, which stands behind `before` and whose first
/// byte is at `base`.
pub open spec fn ends_in(e: TextEncoding, before: Seq<u8>, piece: Seq<u8>, base: int) -> Seq<u64>
    decreases piece.len(),
{
    if piece.len() == 0 {
        Seq::empty()
    } else if ends_line(e, before + piece) {
        ends_in(e, before, piece.drop_last(), base).push((base + piece.len()) as u64)
    } else {
        ends_in(e, before, piece.drop_last(), base)
    }
}

/// Two pieces have the line ends that they have as one.
pub proof fn pieces_have_the_ends_of_the_whole(
    e: TextEncoding,
    before: Seq<u8>,
    a: Seq<u8>,
    b: Seq<u8>,
    base: int,
)
    ensures
        ends_in(e, before, a + b, base) == ends_in(e, before, a, base) + ends_in(
            e,
            before + a,
            b,
            base + a.len(),
        ),
    decreases b.len(),
{
    if b.len() == 0 {
        assert(a + b =~= a);
        assert(ends_in(e, before + a, b, base + a.len()) =~= Seq::<u64>::empty());
    } else {
        pieces_have_the_ends_of_the_whole(e, before, a, b.drop_last(), base);
        assert((a + b).drop_last() =~= a + b.drop_last());
        assert(before + (a + b) =~= before + a + b);
        assert(base + (a + b).len() == base + a.len() + b.len());
    }
    assert(ends_in(e, before, a + b, base) =~= ends_in(e, before, a, base) + ends_in(
        e,
        before + a,
        b,
        base + a.len(),
    ));
}

/// A piece at its own place in the content adds its line ends to those before
/// it.
pub proof fn a_piece_adds_its_ends(e: TextEncoding, before: Seq<u8>, piece: Seq<u8>)
    ensures
        line_ends(e, before + piece) == line_ends(e, before) + ends_in(
            e,
            before,
            piece,
            before.len() as int,
        ),
    decreases piece.len(),
{
    if piece.len() == 0 {
        assert(before + piece =~= before);
    } else {
        a_piece_adds_its_ends(e, before, piece.drop_last());
        assert((before + piece).drop_last() =~= before + piece.drop_last());
    }
    assert(line_ends(e, before + piece) =~= line_ends(e, before) + ends_in(
        e,
        before,
        piece,
        before.len() as int,
    ));
}

/// The line ends of a piece are exactly the places behind its line feeds, in
/// order.
pub proof fn ends_in_a_piece_are_line_feeds(
    e: TextEncoding,
    before: Seq<u8>,
    piece: Seq<u8>,
    base: int,
)
    requires
        0 <= base,
        base + piece.len() <= u64::MAX,
    ensures
        forall|i: int|
            0 <= i < ends_in(e, before, piece, base).len() ==> base < (#[trigger] ends_in(
                e,
                before,
                piece,
                base,
            )[i]) <= base + piece.len() && ends_line(
                e,
                before + piece.take(ends_in(e, before, piece, base)[i] - base),
            ),
        forall|i: int, j: int|
            0 <= i < j < ends_in(e, before, piece, base).len() ==> (#[trigger] ends_in(
                e,
                before,
                piece,
                base,
            )[i]) < (#[trigger] ends_in(e, before, piece, base)[j]),
        forall|k: int|
            0 < k <= piece.len() && ends_line(e, before + #[trigger] piece.take(k)) ==> ends_in(
                e,
                before,
                piece,
                base,
            ).contains((base + k) as u64),
    decreases piece.len(),
{
    if piece.len() > 0 {
        let short = piece.drop_last();
        ends_in_a_piece_are_line_feeds(e, before, short, base);
        assert(piece.take(piece.len() as int) =~= piece);
        assert forall|k: int| 0 <= k <= short.len() implies #[trigger] piece.take(k) == short.take(
            k,
        ) by {
            assert(piece.take(k) =~= short.take(k));
        }
        let ends = ends_in(e, before, piece, base);
        let old_ends = ends_in(e, before, short, base);
        assert forall|i: int| 0 <= i < ends.len() implies base < (#[trigger] ends[i]) <= base
            + piece.len() && ends_line(e, before + piece.take(ends[i] - base)) by {
            if i < old_ends.len() {
                assert(ends[i] == old_ends[i]);
                assert(piece.take(ends[i] - base) == short.take(old_ends[i] - base));
            }
        }
        assert forall|k: int| 0 < k <= piece.len() && ends_line(
            e,
            before + #[trigger] piece.take(k),
        ) implies ends.contains((base + k) as u64) by {
            if k == piece.len() {
                assert(ends[ends.len() - 1] == (base + k) as u64);
            } else {
                assert(piece.take(k) == short.take(k));
                assert(old_ends.contains((base + k) as u64));
                let i = choose|i: int|
                    0 <= i < old_ends.len() && old_ends[i] == (base + k) as u64;
                assert(ends[i] == (base + k) as u64);
            }
        }
    }
}

/// Line boundaries while `c` may still grow: only ended lines count.
pub open spec fn open_boundaries(e: TextEncoding, c: Seq<u8>) -> Seq<u64> {
    seq![0u64] + line_ends(e, c)
}

/// Line boundaries once `c` is complete: a rest without line feed counts.
pub open spec fn closed_boundaries(e: TextEncoding, c: Seq<u8>) -> Seq<u64> {
    let open = open_boundaries(e, c);
    if open.last() == c.len() {
        open
    } else {
        open.push(c.len() as u64)
    }
}

/// Line ends are exactly the places behind a line feed, in order.
pub proof fn line_ends_are_line_feeds(e: TextEncoding, c: Seq<u8>)
    requires
        c.len() <= u64::MAX,
    ensures
        forall|i: int|
            0 <= i < line_ends(e, c).len() ==> 0 < (#[trigger] line_ends(e, c)[i]) <= c.len()
                && ends_line(e, c.take(line_ends(e, c)[i] as int)),
        forall|i: int, j: int|
            0 <= i < j < line_ends(e, c).len() ==> (#[trigger] line_ends(e, c)[i]) < (
            #[trigger] line_ends(e, c)[j]),
        forall|k: int|
            0 < k <= c.len() && ends_line(e, #[trigger] c.take(k)) ==> line_ends(e, c).contains(
                k as u64,
            ),
    decreases c.len(),
{
    if c.len() > 0 {
        let short = c.drop_last();
        line_ends_are_line_feeds(e, short);
        assert(c.take(c.len() as int) =~= c);
        assert forall|k: int| 0 <= k <= short.len() implies #[trigger] c.take(k) == short.take(
            k,
        ) by {
            assert(c.take(k) =~= short.take(k));
        }
        let ends = line_ends(e, c);
        let before = line_ends(e, short);
        assert forall|i: int| 0 <= i < ends.len() implies 0 < (#[trigger] ends[i]) <= c.len()
            && ends_line(e, c.take(ends[i] as int)) by {
            if i < before.len() {
                assert(ends[i] == before[i]);
                assert(c.take(ends[i] as int) == short.take(before[i] as int));
            }
        }
        assert forall|k: int| 0 < k <= c.len() && ends_line(
            e,
            #[trigger] c.take(k),
        ) implies ends.contains(k as u64) by {
            if k == c.len() {
                assert(ends[ends.len() - 1] == k as u64);
            } else {
                assert(c.take(k) == short.take(k));
                assert(before.contains(k as u64));
                let i = choose|i: int| 0 <= i < before.len() && before[i] == k as u64;
                assert(ends[i] == k as u64);
            }
        }
    }
}

/// There are no more lines than bytes.
pub proof fn boundaries_are_lines(e: TextEncoding, c: Seq<u8>)
    ensures
        line_ends(e, c).len() <= c.len(),
    decreases c.len(),
{
    if c.len() > 0 {
        boundaries_are_lines(e, c.drop_last());
    }
}

/// The lines of a complete file are not empty, lie behind one another
/// without a gap, and together are the whole file.
pub proof fn lines_partition_the_file(e: TextEncoding, c: Seq<u8>)
    requires
        c.len() <= u64::MAX,
    ensures
        closed_boundaries(e, c).len() > 0,
        closed_boundaries(e, c)[0] == 0,
        closed_boundaries(e, c).last() == c.len(),
        forall|i: int, j: int|
            0 <= i < j < closed_boundaries(e, c).len() ==> (#[trigger] closed_boundaries(e, c)[i])
                < (#[trigger] closed_boundaries(e, c)[j]),
{
    line_ends_are_line_feeds(e, c);
    let ends = line_ends(e, c);
    let open = open_boundaries(e, c);
    assert forall|i: int, j: int| 0 <= i < j < open.len() implies (#[trigger] open[i]) < (
    #[trigger] open[j]) by {
        assert(open[j] == ends[j - 1]);
        if i > 0 {
            assert(open[i] == ends[i - 1]);
        }
    }
    assert forall|i: int| 0 <= i < open.len() implies (#[trigger] open[i]) <= c.len() by {
        if i > 0 {
            assert(open[i] == ends[i - 1]);
        }
    }
    if open.last() != c.len() {
        assert forall|i: int| 0 <= i < open.len() implies (#[trigger] open[i]) < c.len() by {
            if i < open.len() - 1 {
                assert(open[i] < open[open.len() - 1]);
            }
        }
    }
}

/// What has been published stays: more content only adds lines.
pub proof fn published_lines_stay(e: TextEncoding, c: Seq<u8>, more: Seq<u8>)
    ensures
        open_boundaries(e, c).is_prefix_of(open_boundaries(e, c + more)),
    decreases more.len(),
{
    if more.len() == 0 {
        assert(c + more =~= c);
        assert(open_boundaries(e, c).is_prefix_of(open_boundaries(e, c)));
    } else {
        published_lines_stay(e, c, more.drop_last());
        assert((c + more).drop_last() =~= c + more.drop_last());
        let a = open_boundaries(e, c);
        let b = open_boundaries(e, c + more.drop_last());
        let d = open_boundaries(e, c + more);
        assert(b.is_prefix_of(d)) by {
            assert(d.take(b.len() as int) =~= b);
        }
        assert(a =~= b.take(a.len() as int));
        assert(a =~= d.take(a.len() as int));
    }
}

/// Finds line ends in a file that arrives in pieces.
pub struct LineScanner {
    encoding: TextEncoding,
    pending: Option<u8>,
    scanned: Ghost<Seq<u8>>,
}

impl LineScanner {
    pub closed spec fn encoding(self) -> TextEncoding {
        self.encoding
    }

    /// All bytes seen so far.
    pub closed spec fn scanned(self) -> Seq<u8> {
        self.scanned@
    }

    pub closed spec fn wf(self) -> bool {
        let c = self.scanned@;
        if self.encoding.wide() && c.len() % 2 == 1 {
            self.pending == Some(c[c.len() - 1])
        } else {
            self.pending is None
        }
    }

    pub fn new(encoding: TextEncoding) -> (s: Self)
        ensures
            s.wf(),
            s.encoding() == encoding,
            s.scanned() == Seq::<u8>::empty(),
    {
        LineScanner { encoding, pending: None, scanned: Ghost(Seq::empty()) }
    }

    /// The line ends in the next piece, whose first byte is at `base`.
    pub fn scan(&mut self, bytes: &[u8], base: u64) -> (ends: Vec<u64>)
        requires
            old(self).wf(),
            base + bytes@.len() <= u64::MAX,
        ensures
            final(self).wf(),
            final(self).encoding() == old(self).encoding(),
            final(self).scanned() == old(self).scanned() + bytes@,
            ends@ == ends_in(old(self).encoding(), old(self).scanned(), bytes@, base as int),
    {
        let mut ends: Vec<u64> = Vec::new();
        let ghost before = self.scanned@;
        let ghost e = self.encoding;
        let wide: bool = self.encoding.is_wide();
        let encoding: TextEncoding = self.encoding;
        let mut pending: Option<u8> = self.pending;
        assert(before + bytes@.take(0) =~= before);
        for i in 0..bytes.len()
            invariant
                base + bytes@.len() <= u64::MAX,
                wide == e.wide(),
                encoding == e,
                ends@ == ends_in(e, before, bytes@.take(i as int), base as int),
                wide && (before.len() + i) % 2 == 1 ==> pending == Some(
                    (before + bytes@.take(i as int)).last(),
                ),
                !(wide && (before.len() + i) % 2 == 1) ==> pending is None,
        {
            let byte: u8 = bytes[i];
            let ghost c = before + bytes@.take(i as int);
            let ghost longer = before + bytes@.take(i + 1);
            proof {
                assert(longer =~= c.push(byte));
                assert(bytes@.take(i + 1).drop_last() =~= bytes@.take(i as int));
            }
            let ended: bool = if !wide {
                byte == 10
            } else {
                match pending {
                    Some(first) => {
                        pending = None;
                        encoding.code_unit(first, byte) == 10
                    },
                    None => {
                        pending = Some(byte);
                        false
                    },
                }
            };
            assert(ended == ends_line(e, longer));
            if ended {
                ends.push(base + i as u64 + 1);
            }
        }
        assert(bytes@.take(bytes@.len() as int) =~= bytes@);
        self.pending = pending;
        self.scanned = Ghost(before + bytes@);
        ends
    }
}

/// `raw` without the line feeds and carriage returns at its end.
pub open spec fn without_line_end(e: TextEncoding, raw: Seq<u8>) -> Seq<u8>
    decreases raw.len(),
{
    if e.wide() {
        if raw.len() >= 2 && (e.unit(raw[raw.len() - 2], raw[raw.len() - 1]) == 10 || e.unit(
            raw[raw.len() - 2],
            raw[raw.len() - 1],
        ) == 13) {
            without_line_end(e, raw.take(raw.len() - 2))
        } else {
            raw
        }
    } else if raw.len() >= 1 && (raw[raw.len() - 1] == 10 || raw[raw.len() - 1] == 13) {
        without_line_end(e, raw.take(raw.len() - 1))
    } else {
        raw
    }
}

/// `raw` without a byte order mark of its encoding family.
pub open spec fn without_mark(e: TextEncoding, raw: Seq<u8>) -> Seq<u8> {
    if e == TextEncoding::Utf16Le && has_utf16_le_mark(raw) {
        raw.skip(2)
    } else if e == TextEncoding::Utf16Be && has_utf16_be_mark(raw) {
        raw.skip(2)
    } else if !e.wide() && has_utf8_mark(raw) {
        raw.skip(3)
    } else {
        raw
    }
}

/// The bytes of a line that are shown.
pub open spec fn shown_bytes(e: TextEncoding, raw: Seq<u8>, first_line: bool) -> Seq<u8> {
    let line = without_line_end(e, raw);
    if first_line {
        without_mark(e, line)
    } else {
        line
    }
}

fn drop_front(raw: &Vec<u8>, n: usize) -> (r: Vec<u8>)
    requires
        n <= raw@.len(),
    ensures
        r@ == raw@.skip(n as int),
{
    let mut r: Vec<u8> = Vec::new();
    for i in n..raw.len()
        invariant
            n <= raw@.len(),
            r@ =~= raw@.subrange(n as int, i as int),
    {
        r.push(raw[i]);
    }
    assert(r@ =~= raw@.skip(n as int));
    r
}

/// Removes the line end and, on the first line, the byte order mark.
pub fn trim_line_bytes(raw: &mut Vec<u8>, encoding: TextEncoding, first_line: bool)
    ensures
        final(raw)@ == shown_bytes(encoding, old(raw)@, first_line),
{
    let ghost start = raw@;
    let wide: bool = encoding.is_wide();
    let step: usize = if wide {
        2
    } else {
        1
    };
    let mut open: bool = true;
    while open
        invariant
            wide == encoding.wide(),
            step == if wide {
                2int
            } else {
                1
            },
            without_line_end(encoding, raw@) == without_line_end(encoding, start),
            !open ==> without_line_end(encoding, raw@) == raw@,
        decreases raw@.len(), if open { 1int } else { 0 },
    {
        let n: usize = raw.len();
        let unit: u16 = if n < step {
            0
        } else if wide {
            encoding.code_unit(raw[n - 2], raw[n - 1])
        } else {
            raw[n - 1] as u16
        };
        if unit == 10 || unit == 13 {
            let ghost before = raw@;
            raw.truncate(n - step);
            assert(raw@ =~= before.take(before.len() - step));
        } else {
            open = false;
        }
    }
    if first_line {
        if wide {
            let marked: bool = match encoding {
                TextEncoding::Utf16Le => starts_with_2(raw, 0xff, 0xfe),
                _ => starts_with_2(raw, 0xfe, 0xff),
            };
            if marked {
                *raw = drop_front(raw, 2);
            }
        } else if starts_with_3(raw, 0xef, 0xbb, 0xbf) {
            *raw = drop_front(raw, 3);
        }
    }
}

/// What `encoding_rs` reads in `bytes` with one of its encodings.
pub uninterp spec fn decoded(encoding: TextEncoding, bytes: Seq<u8>) -> Seq<char>;

/// `encoding_rs::Encoding::decode`: the text of `bytes`, with malformed
/// parts replaced. A leading byte order mark is honoured and left out, and
/// UTF-8 without one is taken as it is.
#[verifier::external_body]
fn decode_text(encoding: TextEncoding, bytes: &[u8]) -> (s: String)
    requires
        bytes@.len() <= MAX_LINE_BYTES,
    ensures
        s@ == decoded(encoding, bytes@),
        encoding == TextEncoding::Utf8 && vstd::utf8::valid_utf8(bytes@) && !has_utf8_mark(bytes@)
            ==> s@ == vstd::utf8::decode_utf8(bytes@),
{
    let decoder = match encoding {
        TextEncoding::Utf8 => encoding_rs::UTF_8,
        TextEncoding::Gbk => encoding_rs::GBK,
        TextEncoding::Gb18030 => encoding_rs::GB18030,
        TextEncoding::Utf16Le => encoding_rs::UTF_16LE,
        TextEncoding::Utf16Be => encoding_rs::UTF_16BE,
    };
    decoder.decode(bytes).0.into_owned()
}

/// One line of a log.
#[derive(Debug, Clone, PartialEq, Eq)]
pub struct LogLine {
    pub line_no: u64,
    pub content: String,
    pub truncated: bool,
}

impl LogLine {
    /// The line at `index`, counted from 0, of `length` bytes in the file.
    pub fn new(index: u64, content: String, length: u64) -> (line: Self)
        requires
            index < u64::MAX,
        ensures
            line.line_no == index + 1,
            line.content == content,
            line.truncated == (length > MAX_LINE_BYTES),
    {
        LogLine { line_no: index + 1, content, truncated: length > MAX_LINE_BYTES as u64 }
    }

    /// The line at `index` from the bytes that were read of it.
    pub fn decode(encoding: TextEncoding, raw: Vec<u8>, index: u64, length: u64) -> (line: Self)
        requires
            index < u64::MAX,
            raw@.len() <= MAX_LINE_BYTES,
        ensures
            line.line_no == index + 1,
            line.content@ == decoded(encoding, shown_bytes(encoding, raw@, index == 0)),
            line.truncated == (length > MAX_LINE_BYTES),
            encoding == TextEncoding::Utf8 && vstd::utf8::valid_utf8(
                shown_bytes(encoding, raw@, index == 0),
            ) && !has_utf8_mark(shown_bytes(encoding, raw@, index == 0)) ==> line.content@
                == vstd::utf8::decode_utf8(shown_bytes(encoding, raw@, index == 0)),
    {
        let mut raw = raw;
        proof {
            shown_bytes_are_no_more(encoding, raw@, index == 0);
        }
        trim_line_bytes(&mut raw, encoding, index == 0);
        LogLine::new(index, decode_text(encoding, &raw), length)
    }
}

proof fn shown_bytes_are_no_more(e: TextEncoding, raw: Seq<u8>, first_line: bool)
    ensures
        shown_bytes(e, raw, first_line).len() <= raw.len(),
{
    line_end_is_removed(e, raw);
}

proof fn line_end_is_removed(e: TextEncoding, raw: Seq<u8>)
    ensures
        without_line_end(e, raw).len() <= raw.len(),
    decreases raw.len(),
{
    let n = if e.wide() { 2int } else { 1 };
    if raw.len() >= n {
        line_end_is_removed(e, raw.take(raw.len() - n));
    }
}

/// Bytes that are nothing but line feeds and carriage returns.
pub open spec fn only_line_ends(e: TextEncoding, tail: Seq<u8>) -> bool {
    match e {
        TextEncoding::Utf16Le => tail.len() % 2 == 0 && forall|i: int|
            0 <= i < tail.len() ==> if i % 2 == 0 {
                #[trigger] tail[i] == 10 || tail[i] == 13
            } else {
                tail[i] == 0
            },
        TextEncoding::Utf16Be => tail.len() % 2 == 0 && forall|i: int|
            0 <= i < tail.len() ==> if i % 2 == 1 {
                #[trigger] tail[i] == 10 || tail[i] == 13
            } else {
                tail[i] == 0
            },
        _ => forall|i: int| 0 <= i < tail.len() ==> #[trigger] tail[i] == 10 || tail[i] == 13,
    }
}

/// The bytes end in a line feed or a carriage return.
pub open spec fn has_line_end(e: TextEncoding, b: Seq<u8>) -> bool {
    let n = b.len() as int;
    match e {
        TextEncoding::Utf16Le => n >= 2 && (b[n - 2] == 10 || b[n - 2] == 13) && b[n - 1] == 0,
        TextEncoding::Utf16Be => n >= 2 && b[n - 2] == 0 && (b[n - 1] == 10 || b[n - 1] == 13),
        _ => n >= 1 && (b[n - 1] == 10 || b[n - 1] == 13),
    }
}

/// The byte order mark with which a file in an encoding can begin.
pub open spec fn order_mark(e: TextEncoding) -> Seq<u8> {
    match e {
        TextEncoding::Utf16Le => seq![0xffu8, 0xfe],
        TextEncoding::Utf16Be => seq![0xfeu8, 0xff],
        _ => seq![0xefu8, 0xbb, 0xbf],
    }
}

/// The bytes of a line are a byte order mark, the bytes that are shown and
/// the line end, in this order, and nothing else. There is a mark only on the
/// first line, and there wherever the line has one; all line feeds and
/// carriage returns at the end belong to the line end.
pub proof fn line_is_mark_content_and_end(e: TextEncoding, raw: Seq<u8>, first_line: bool) -> (r: (
    Seq<u8>,
    Seq<u8>,
))
    ensures
        raw == r.0 + shown_bytes(e, raw, first_line) + r.1,
        only_line_ends(e, r.1),
        !has_line_end(e, r.0 + shown_bytes(e, raw, first_line)),
        r.0 == if first_line && order_mark(e).is_prefix_of(raw) {
            order_mark(e)
        } else {
            Seq::empty()
        },
{
    let line = without_line_end(e, raw);
    let tail = line_end_of(e, raw);
    let shown = shown_bytes(e, raw, first_line);
    let mark = order_mark(e);
    if mark.is_prefix_of(raw) {
        mark_is_no_line_end(e, raw);
    } else if mark.is_prefix_of(line) {
        assert(raw.take(mark.len() as int) =~= line.take(mark.len() as int));
    }
    assert(mark.is_prefix_of(line) == mark.is_prefix_of(raw));
    if mark.is_prefix_of(line) {
        assert(line.take(mark.len() as int) =~= mark);
        assert(line[0] == mark[0] && line[1] == mark[1]);
        assert(!e.wide() ==> line[2] == mark[2]);
    } else if line.len() >= mark.len() {
        assert(line.take(mark.len() as int) != mark);
        if !e.wide() {
            assert(line[0] == 0xef && line[1] == 0xbb && line[2] == 0xbf ==> line.take(3) =~= mark);
        } else {
            assert(line[0] == mark[0] && line[1] == mark[1] ==> line.take(2) =~= mark);
        }
    }
    if first_line && mark.is_prefix_of(raw) {
        assert(mark + shown =~= line);
        assert(raw =~= mark + shown + tail);
        (mark, tail)
    } else {
        assert(Seq::<u8>::empty() + shown =~= line);
        assert(raw =~= Seq::<u8>::empty() + shown + tail);
        (Seq::empty(), tail)
    }
}

/// The line end that is cut off.
proof fn line_end_of(e: TextEncoding, raw: Seq<u8>) -> (tail: Seq<u8>)
    ensures
        raw == without_line_end(e, raw) + tail,
        only_line_ends(e, tail),
        !has_line_end(e, without_line_end(e, raw)),
    decreases raw.len(),
{
    let line = without_line_end(e, raw);
    let n: int = if e.wide() {
        2
    } else {
        1
    };
    if has_line_end(e, raw) {
        let start = raw.take(raw.len() - n);
        let end = raw.skip(raw.len() - n);
        let before = line_end_of(e, start);
        assert(raw =~= start + end);
        assert(raw =~= line + (before + end));
        before + end
    } else {
        assert(raw =~= line + Seq::<u8>::empty());
        Seq::empty()
    }
}

proof fn mark_is_no_line_end(e: TextEncoding, raw: Seq<u8>)
    requires
        order_mark(e).is_prefix_of(raw),
    ensures
        order_mark(e).is_prefix_of(without_line_end(e, raw)),
    decreases raw.len(),
{
    let mark = order_mark(e);
    let n: int = if e.wide() {
        2
    } else {
        1
    };
    assert(raw[0] == mark[0] && raw[1] == mark[1]);
    assert(!e.wide() ==> raw[2] == mark[2]);
    if has_line_end(e, raw) {
        let start = raw.take(raw.len() - n);
        assert(start.len() >= mark.len());
        assert(start.take(mark.len() as int) =~= raw.take(mark.len() as int));
        mark_is_no_line_end(e, start);
    }
}

/// A line that does not end in a line feed or a carriage return is shown as
/// it is, and one line end more or less makes no difference to what is shown.
pub proof fn content_is_shown_unchanged(e: TextEncoding, content: Seq<u8>, tail: Seq<u8>)
    requires
        !has_line_end(e, content),
        only_line_ends(e, tail),
    ensures
        shown_bytes(e, content + tail, false) == content,
        shown_bytes(e, order_mark(e) + content + tail, true) == content,
        !order_mark(e).is_prefix_of(content) ==> shown_bytes(e, content + tail, true) == content,
{
    let mark = order_mark(e);
    let raw = mark + content + tail;
    cut_at_content(e, content, tail);
    assert(!has_line_end(e, mark + content));
    cut_at_content(e, mark + content, tail);
    let line = without_line_end(e, raw);
    assert(line.skip(mark.len() as int) =~= content);
    assert(line[0] == mark[0] && line[1] == mark[1]);
    assert(!e.wide() ==> line[2] == mark[2]);
    if !mark.is_prefix_of(content) && content.len() >= mark.len() {
        let start = content.take(mark.len() as int);
        if !e.wide() {
            assert(content[0] == 0xef && content[1] == 0xbb && content[2] == 0xbf ==> start =~= mark);
        } else {
            assert(content[0] == mark[0] && content[1] == mark[1] ==> start =~= mark);
        }
    }
}

proof fn cut_at_content(e: TextEncoding, content: Seq<u8>, tail: Seq<u8>)
    requires
        !has_line_end(e, content),
        only_line_ends(e, tail),
    ensures
        without_line_end(e, content + tail) == content,
    decreases tail.len(),
{
    let raw = content + tail;
    if tail.len() == 0 {
        assert(raw =~= content);
    } else {
        let n: int = if e.wide() {
            2
        } else {
            1
        };
        let rest = tail.take(tail.len() - n);
        assert(raw.take(raw.len() - n) =~= content + rest);
        cut_at_content(e, content, rest);
        assert(raw[raw.len() - 1] == tail[tail.len() - 1]);
        if e.wide() {
            assert(raw[raw.len() - 2] == tail[tail.len() - 2]);
        }
    }
}

/// A line feed stands right before the place `k`.
pub open spec fn line_feed_before(e: TextEncoding, c: Seq<u8>, k: int) -> bool {
    match e {
        TextEncoding::Utf16Le => k % 2 == 0 && c[k - 2] == 10 && c[k - 1] == 0,
        TextEncoding::Utf16Be => k % 2 == 0 && c[k - 2] == 0 && c[k - 1] == 10,
        _ => c[k - 1] == 10,
    }
}

/// A line ends behind every line feed and nowhere else: behind every byte 10,
/// or behind every unit 10 in UTF-16.
pub proof fn every_line_feed_ends_a_line(e: TextEncoding, c: Seq<u8>, k: int)
    requires
        0 < k <= c.len() <= u64::MAX,
    ensures
        line_ends(e, c).contains(k as u64) <==> line_feed_before(e, c, k),
{
    let start = c.take(k);
    line_ends_are_line_feeds(e, c);
    assert(start[k - 1] == c[k - 1]);
    if e.wide() && k >= 2 {
        assert(start[k - 2] == c[k - 2]);
    }
    if line_ends(e, c).contains(k as u64) {
        let i = choose|i: int| 0 <= i < line_ends(e, c).len() && line_ends(e, c)[i] == k as u64;
        assert(ends_line(e, c.take(line_ends(e, c)[i] as int)));
    }
}

/// A byte order mark decides the encoding, whatever follows it.
pub proof fn mark_decides_encoding(rest: Seq<u8>)
    ensures
        detected(seq![0xefu8, 0xbb, 0xbf] + rest) == TextEncoding::Utf8,
        detected(seq![0xffu8, 0xfe] + rest) == TextEncoding::Utf16Le,
        detected(seq![0xfeu8, 0xff] + rest) == TextEncoding::Utf16Be,
{
}

/// Without a mark, a text that is UTF-8 is taken for it, and anything else
/// for GB18030.
pub proof fn unmarked_text_is_told_by_its_bytes(sample: Seq<u8>)
    requires
        !order_mark(TextEncoding::Utf8).is_prefix_of(sample),
        !order_mark(TextEncoding::Utf16Le).is_prefix_of(sample),
        !order_mark(TextEncoding::Utf16Be).is_prefix_of(sample),
    ensures
        detected(sample) == if vstd::utf8::valid_utf8(sample) {
            TextEncoding::Utf8
        } else {
            TextEncoding::Gb18030
        },
{
    if has_utf8_mark(sample) {
        assert(sample.take(3) =~= order_mark(TextEncoding::Utf8));
    }
    if has_utf16_le_mark(sample) {
        assert(sample.take(2) =~= order_mark(TextEncoding::Utf16Le));
    }
    if has_utf16_be_mark(sample) {
        assert(sample.take(2) =~= order_mark(TextEncoding::Utf16Be));
    }
}

/// The name under which an encoding is shown means that encoding, in capitals
/// and in small letters; no two encodings have one name.
pub proof fn shown_name_means_the_encoding(e: TextEncoding)
    ensures
        named_encoding(text::ascii_uppercase(e.label())) == Some(e),
        named_encoding(text::ascii_uppercase(text::ascii_lowercase(e.label()))) == Some(e),
        text::trimmed(e.label()) == e.label(),
{
    reveal_strlit("UTF-8");
    reveal_strlit("UTF8");
    reveal_strlit("GBK");
    reveal_strlit("GB18030");
    reveal_strlit("UTF-16LE");
    reveal_strlit("UTF16LE");
    reveal_strlit("UTF-16BE");
    reveal_strlit("UTF16BE");
    let s = e.label();
    assert(text::ascii_uppercase(s) =~= s);
    assert(text::ascii_uppercase(text::ascii_lowercase(s)) =~= s);
    assert(e == TextEncoding::Utf16Le ==> s[6] == 'L');
    assert(e == TextEncoding::Utf16Be ==> s[6] == 'B');
}

} // verus!
