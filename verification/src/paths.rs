//! Paths as texts and as lists of components.

use crate::order;
use crate::order::{stable_order, Key};
use crate::text;
use crate::text::{
    chars_of, copy_texts, is_ascii_letter, same_text, same_texts, string_of, to_lowercase,
};
use vstd::prelude::*;

verus! {

/// How the components of a path are parted.
#[derive(Debug, Clone, Copy, PartialEq, Eq, Structural)]
pub enum PathStyle {
    /// By slashes.
    Slashes,
    /// By slashes and backslashes.
    Both,
    /// By backslashes; components `.` count.
    Verbatim,
}

/// `c` parts the components of a path.
pub open spec fn separator(style: PathStyle, c: char) -> bool {
    match style {
        PathStyle::Slashes => c == '/',
        PathStyle::Both => c == '/' || c == '\\',
        PathStyle::Verbatim => c == '\\',
    }
}

fn is_separator(style: PathStyle, c: char) -> (r: bool)
    ensures
        r == separator(style, c),
{
    match style {
        PathStyle::Slashes => c == '/',
        PathStyle::Both => c == '/' || c == '\\',
        PathStyle::Verbatim => c == '\\',
    }
}

/// What comes behind the last separator.
pub open spec fn last_piece(style: PathStyle, s: Seq<char>) -> Seq<char>
    decreases s.len(),
{
    if s.len() == 0 || separator(style, s.last()) {
        Seq::empty()
    } else {
        last_piece(style, s.drop_last()).push(s.last())
    }
}

/// The last component of a path; empty where it has none. Repeated and
/// trailing separators do not count, nor do components `.` that are not
/// verbatim.
pub open spec fn last_component(style: PathStyle, s: Seq<char>) -> Seq<char>
    decreases s.len(),
{
    let piece = last_piece(style, s);
    if s.len() == 0 {
        Seq::empty()
    } else if piece.len() == 0 || (piece == seq!['.'] && style != PathStyle::Verbatim) {
        last_component(style, s.drop_last())
    } else {
        piece
    }
}

/// How many characters of `s` stand before its first separator.
pub open spec fn first_piece_len(style: PathStyle, s: Seq<char>) -> nat
    decreases s.len(),
{
    if s.len() == 0 || separator(style, s[0]) {
        0
    } else {
        1 + first_piece_len(style, s.drop_first())
    }
}

/// The letter of a drive.
pub open spec fn starts_with_drive(s: Seq<char>) -> bool {
    s.len() >= 2 && text::ascii_letter(s[0]) && s[1] == ':'
}

/// The path starts with `\\?\`, which takes what follows as it is.
pub open spec fn is_verbatim(s: Seq<char>) -> bool {
    s.len() >= 4 && s[0] == '\\' && s[1] == '\\' && s[2] == '?' && s[3] == '\\'
}

/// The path starts with `\\?\UNC\`, behind which a server and a share stand.
pub open spec fn is_verbatim_share(s: Seq<char>) -> bool {
    is_verbatim(s) && s.len() >= 8 && s[4] == 'U' && s[5] == 'N' && s[6] == 'C' && separator(
        PathStyle::Both,
        s[7],
    )
}

/// The path starts with `\\?\` and nothing but the letter of a drive.
pub open spec fn is_verbatim_drive(s: Seq<char>) -> bool {
    is_verbatim(s) && starts_with_drive(s.skip(4)) && (s.len() == 6 || separator(
        PathStyle::Both,
        s[6],
    ))
}

/// The path starts with `\\.\`, behind which a device stands.
pub open spec fn is_device(s: Seq<char>) -> bool {
    s.len() >= 4 && separator(PathStyle::Both, s[0]) && separator(PathStyle::Both, s[1]) && s[2]
        == '.' && separator(PathStyle::Both, s[3])
}

/// How many characters a server and its share take up, with what parts them.
pub open spec fn share_len(style: PathStyle, s: Seq<char>) -> nat {
    let server = first_piece_len(style, s);
    let share = if server < s.len() {
        first_piece_len(style, s.skip(server as int + 1))
    } else {
        0
    };
    if share > 0 {
        server + 1 + share
    } else {
        server
    }
}

/// The path starts with `\\` and the names of a server and a share.
pub open spec fn is_share(s: Seq<char>) -> bool {
    s.len() >= 2 && separator(PathStyle::Both, s[0]) && separator(PathStyle::Both, s[1]) && {
        let server = first_piece_len(PathStyle::Both, s.skip(2));
        server > 0 && share_len(PathStyle::Both, s.skip(2)) > server
    }
}

/// How much of a Windows path stands before its components: a drive, a server
/// and its share, a device, or what a verbatim path starts with.
pub open spec fn prefix_len(s: Seq<char>) -> nat {
    if is_verbatim_share(s) {
        8 + share_len(PathStyle::Verbatim, s.skip(8))
    } else if is_verbatim_drive(s) {
        6
    } else if is_verbatim(s) {
        4 + first_piece_len(PathStyle::Verbatim, s.skip(4))
    } else if is_device(s) {
        4 + first_piece_len(PathStyle::Both, s.skip(4))
    } else if is_share(s) {
        2 + share_len(PathStyle::Both, s.skip(2))
    } else if starts_with_drive(s) {
        2
    } else {
        0
    }
}

/// How the components of this path are parted.
pub open spec fn path_style(platform: Platform, s: Seq<char>) -> PathStyle {
    if platform != Platform::Windows {
        PathStyle::Slashes
    } else if is_verbatim(s) {
        PathStyle::Verbatim
    } else {
        PathStyle::Both
    }
}

/// The components of a path as they are written, without what stands before
/// them on Windows.
pub open spec fn path_body(platform: Platform, s: Seq<char>) -> Seq<char> {
    if platform != Platform::Windows {
        s
    } else {
        let rest = s.skip(prefix_len(s) as int);
        if rest.len() > 0 && separator(PathStyle::Both, rest[0]) {
            rest.skip(1)
        } else {
            rest
        }
    }
}

/// The name of the file that a path leads to.
pub open spec fn file_name(platform: Platform, s: Seq<char>) -> Option<Seq<char>> {
    let name = last_component(path_style(platform, s), path_body(platform, s));
    if name.len() == 0 || name == seq!['.'] || name == seq!['.', '.'] {
        None
    } else {
        Some(name)
    }
}

/// The place of the last dot, or -1.
pub open spec fn last_dot(s: Seq<char>) -> int
    decreases s.len(),
{
    if s.len() == 0 {
        -1
    } else if s.last() == '.' {
        s.len() - 1
    } else {
        last_dot(s.drop_last())
    }
}

/// The extension of the file that a path leads to: what comes behind the
/// last dot, unless that dot opens the name.
pub open spec fn extension(platform: Platform, s: Seq<char>) -> Option<Seq<char>> {
    match file_name(platform, s) {
        None => None,
        Some(name) => if last_dot(name) <= 0 {
            None
        } else {
            Some(name.skip(last_dot(name) + 1))
        },
    }
}

proof fn last_piece_is_bounded(style: PathStyle, s: Seq<char>, from: int)
    requires
        0 <= from <= s.len(),
        from == 0 || separator(style, s[from - 1]),
        forall|j: int| from <= j < s.len() ==> !separator(style, #[trigger] s[j]),
    ensures
        last_piece(style, s) == s.skip(from),
    decreases s.len(),
{
    if from == s.len() {
        assert(s.skip(from) =~= Seq::empty());
    } else {
        last_piece_is_bounded(style, s.drop_last(), from);
        assert(s.skip(from) =~= s.drop_last().skip(from).push(s.last()));
    }
}

/// The last component of a path.
fn find_last_component(style: PathStyle, s: &Vec<char>) -> (r: Vec<char>)
    ensures
        r@ == last_component(style, s@),
{
    let mut end: usize = s.len();
    assert(s@.take(end as int) =~= s@);
    while end > 0
        invariant
            end <= s@.len(),
            last_component(style, s@.take(end as int)) == last_component(style, s@),
        decreases end,
    {
        let ghost head = s@.take(end as int);
        let mut from: usize = end;
        while from > 0 && !is_separator(style, s[from - 1])
            invariant
                from <= end <= s@.len(),
                forall|j: int| from <= j < end ==> !separator(style, #[trigger] s@[j]),
            decreases from,
        {
            from = from - 1;
        }
        proof {
            last_piece_is_bounded(style, head, from as int);
            assert(head.skip(from as int) =~= s@.subrange(from as int, end as int));
        }
        let dot: bool = end - from == 1 && s[from] == '.';
        let skipped: bool = dot && !is_verbatim_style(style);
        assert(dot == (last_piece(style, head) =~= seq!['.'])) by {
            if last_piece(style, head) =~= seq!['.'] {
                assert(last_piece(style, head)[0] == '.');
            }
        }
        if from == end || skipped {
            assert(head.drop_last() =~= s@.take(end - 1));
            end = end - 1;
        } else {
            let mut r: Vec<char> = Vec::new();
            for i in from..end
                invariant
                    from <= end <= s@.len(),
                    r@ =~= s@.subrange(from as int, i as int),
            {
                r.push(s[i]);
            }
            return r;
        }
    }
    assert(s@.take(0) =~= Seq::empty());
    Vec::new()
}

fn is_verbatim_style(style: PathStyle) -> (r: bool)
    ensures
        r == (style == PathStyle::Verbatim),
{
    match style {
        PathStyle::Verbatim => true,
        _ => false,
    }
}

/// How many characters stand before the first separator, from `from` on.
fn count_first_piece(style: PathStyle, s: &Vec<char>, from: usize) -> (n: usize)
    requires
        from <= s@.len(),
    ensures
        n == first_piece_len(style, s@.skip(from as int)),
        from + n <= s@.len(),
{
    let mut i: usize = from;
    while i < s.len() && !is_separator(style, s[i])
        invariant
            from <= i <= s@.len(),
            first_piece_len(style, s@.skip(from as int)) == i - from + first_piece_len(
                style,
                s@.skip(i as int),
            ),
        decreases s@.len() - i,
    {
        assert(s@.skip(i as int)[0] == s@[i as int]);
        assert(s@.skip(i as int).drop_first() =~= s@.skip(i + 1));
        i = i + 1;
    }
    if i < s.len() {
        assert(s@.skip(i as int)[0] == s@[i as int]);
    }
    i - from
}

/// How many characters a server and its share take up, from `from` on; the
/// second result is that of the server.
fn count_share(style: PathStyle, s: &Vec<char>, from: usize) -> (r: (usize, usize))
    requires
        from <= s@.len(),
    ensures
        r.0 == share_len(style, s@.skip(from as int)),
        r.1 == first_piece_len(style, s@.skip(from as int)),
        from + r.0 <= s@.len(),
{
    let server: usize = count_first_piece(style, s, from);
    if server < s.len() - from {
        let share: usize = count_first_piece(style, s, from + server + 1);
        assert(s@.skip(from as int).skip(server + 1) =~= s@.skip(from + server + 1));
        if share > 0 {
            return (server + 1 + share, server);
        }
    }
    (server, server)
}

fn finds_drive(s: &Vec<char>, from: usize) -> (r: bool)
    requires
        from <= s@.len(),
    ensures
        r == starts_with_drive(s@.skip(from as int)),
{
    s.len() - from >= 2 && is_ascii_letter(s[from]) && s[from + 1] == ':'
}

fn finds_verbatim(s: &Vec<char>) -> (r: bool)
    ensures
        r == is_verbatim(s@),
{
    s.len() >= 4 && s[0] == '\\' && s[1] == '\\' && s[2] == '?' && s[3] == '\\'
}

/// How much of a Windows path stands before its components.
fn find_prefix_len(s: &Vec<char>) -> (n: usize)
    ensures
        n == prefix_len(s@),
        n <= s@.len(),
{
    assert(s@.skip(0) =~= s@);
    let verbatim: bool = finds_verbatim(s);
    if verbatim && s.len() >= 8 && s[4] == 'U' && s[5] == 'N' && s[6] == 'C' && is_separator(
        PathStyle::Both,
        s[7],
    ) {
        8 + count_share(PathStyle::Verbatim, s, 8).0
    } else if verbatim && finds_drive(s, 4) && (s.len() == 6 || is_separator(PathStyle::Both, s[6])) {
        6
    } else if verbatim {
        4 + count_first_piece(PathStyle::Verbatim, s, 4)
    } else if s.len() < 2 || !is_separator(PathStyle::Both, s[0]) || !is_separator(
        PathStyle::Both,
        s[1],
    ) {
        if finds_drive(s, 0) {
            2
        } else {
            0
        }
    } else if s.len() >= 4 && s[2] == '.' && is_separator(PathStyle::Both, s[3]) {
        4 + count_first_piece(PathStyle::Both, s, 4)
    } else {
        let (both, server) = count_share(PathStyle::Both, s, 2);
        if server > 0 && both > server {
            2 + both
        } else {
            0
        }
    }
}

/// The components of a path as they are written.
fn find_body(platform: Platform, s: &Vec<char>) -> (r: (PathStyle, Vec<char>))
    ensures
        r.0 == path_style(platform, s@),
        r.1@ == path_body(platform, s@),
{
    let (style, from): (PathStyle, usize) = match platform {
        Platform::Windows => {
            let prefix: usize = find_prefix_len(s);
            let from: usize = if prefix < s.len() && is_separator(PathStyle::Both, s[prefix]) {
                prefix + 1
            } else {
                prefix
            };
            let style: PathStyle = if finds_verbatim(s) {
                PathStyle::Verbatim
            } else {
                PathStyle::Both
            };
            assert(prefix < s@.len() ==> s@.skip(prefix as int)[0] == s@[prefix as int]);
            assert(prefix < s@.len() ==> s@.skip(prefix as int).skip(1) =~= s@.skip(prefix + 1));
            (style, from)
        },
        _ => (PathStyle::Slashes, 0),
    };
    let mut r: Vec<char> = Vec::new();
    for i in from..s.len()
        invariant
            from <= s@.len(),
            r@ =~= s@.subrange(from as int, i as int),
    {
        r.push(s[i]);
    }
    assert(r@ =~= s@.skip(from as int));
    assert(s@.skip(0) =~= s@);
    (style, r)
}

/// The extension of the file that a path leads to.
pub fn find_extension(platform: Platform, s: &Vec<char>) -> (r: Option<Vec<char>>)
    ensures
        match extension(platform, s@) {
            Some(e) => r is Some && r->0@ == e,
            None => r is None,
        },
{
    let (style, body) = find_body(platform, s);
    let name = find_last_component(style, &body);
    if name.len() == 0 {
        return None;
    }
    if name.len() == 1 && name[0] == '.' {
        assert(name@ =~= seq!['.']);
        return None;
    }
    if name.len() == 2 && name[0] == '.' && name[1] == '.' {
        assert(name@ =~= seq!['.', '.']);
        return None;
    }
    let mut i: usize = name.len();
    assert(name@.take(i as int) =~= name@);
    while i > 0 && name[i - 1] != '.'
        invariant
            i <= name@.len(),
            last_dot(name@.take(i as int)) == last_dot(name@),
        decreases i,
    {
        assert(name@.take(i as int).drop_last() =~= name@.take(i - 1));
        i = i - 1;
    }
    assert(i == 0 ==> name@.take(0) =~= Seq::empty());
    if i <= 1 {
        return None;
    }
    let mut r: Vec<char> = Vec::new();
    for j in i..name.len()
        invariant
            i <= name@.len(),
            r@ =~= name@.subrange(i as int, j as int),
    {
        r.push(name[j]);
    }
    assert(r@ =~= name@.skip(i as int));
    Some(r)
}

/// `s` holds no separator of any style.
pub open spec fn single_name(s: Seq<char>) -> bool {
    !s.contains('/') && !s.contains('\\')
}

/// The last component of a path is the name behind its last separator.
proof fn name_is_last_component(style: PathStyle, dir: Seq<char>, name: Seq<char>)
    requires
        dir.len() == 0 || separator(style, dir.last()),
        single_name(name),
        name.len() > 0,
        name != seq!['.'],
    ensures
        last_component(style, dir + name) == name,
{
    let s = dir + name;
    assert forall|j: int| dir.len() <= j < s.len() implies !separator(style, #[trigger] s[j]) by {
        assert(s[j] == name[j - dir.len()]);
        assert(name.contains(name[j - dir.len()]));
    }
    last_piece_is_bounded(style, s, dir.len() as int);
    assert(s.skip(dir.len() as int) =~= name);
}

/// A file is called what stands behind the last separator of its path: behind
/// the last slash, and on Windows of a path with a drive, behind the last
/// slash or backslash.
pub proof fn file_is_called_by_its_last_part(platform: Platform, dir: Seq<char>, name: Seq<char>)
    requires
        single_name(name),
        name.len() > 0,
        name != seq!['.'],
        name != seq!['.', '.'],
        if platform == Platform::Windows {
            (dir.len() == 0 && !name.contains(':')) || (dir.len() >= 3 && text::ascii_letter(dir[0])
                && dir[1] == ':' && (dir[2] == '\\' || dir[2] == '/') && (dir.last() == '\\'
                || dir.last() == '/'))
        } else {
            dir.len() == 0 || dir.last() == '/'
        },
    ensures
        file_name(platform, dir + name) == Some(name),
{
    let s = dir + name;
    if platform == Platform::Windows {
        if dir.len() == 0 {
            assert(s =~= name);
            assert(name.contains(name[0]));
            if name.len() > 1 {
                assert(name.contains(name[1]));
            }
            assert(path_body(platform, s) =~= name);
            name_is_last_component(PathStyle::Both, Seq::empty(), name);
            assert(Seq::<char>::empty() + name =~= name);
        } else {
            assert(s[0] == dir[0] && s[1] == dir[1] && s[2] == dir[2]);
            assert(prefix_len(s) == 2);
            assert(s.skip(2)[0] == dir[2]);
            assert(path_body(platform, s) =~= dir.skip(3) + name);
            name_is_last_component(PathStyle::Both, dir.skip(3), name);
        }
    } else {
        name_is_last_component(PathStyle::Slashes, dir, name);
    }
}

/// The extension of a file is what stands behind the last dot of its name.
pub proof fn extension_is_behind_the_last_dot(
    platform: Platform,
    dir: Seq<char>,
    stem: Seq<char>,
    e: Seq<char>,
)
    requires
        file_name(platform, dir + (stem + seq!['.'] + e)) == Some(stem + seq!['.'] + e),
        stem.len() > 0,
        !e.contains('.'),
    ensures
        extension(platform, dir + (stem + seq!['.'] + e)) == Some(e),
{
    let name = stem + seq!['.'] + e;
    dot_is_last(stem, e);
    assert(name.skip(stem.len() as int + 1) =~= e);
}

/// A name without a dot, or with one only in front, has no extension.
pub proof fn name_without_dot_has_no_extension(platform: Platform, path: Seq<char>, name: Seq<char>)
    requires
        file_name(platform, path) == Some(name),
        !name.drop_first().contains('.'),
        name.len() > 0,
    ensures
        extension(platform, path) is None,
{
    no_dot_behind(name);
}

proof fn no_dot_behind(name: Seq<char>)
    requires
        name.len() > 0,
        !name.drop_first().contains('.'),
    ensures
        last_dot(name) <= 0,
    decreases name.len(),
{
    if name.len() > 1 {
        assert(name.drop_first().contains(name.drop_first()[name.len() - 2]));
        assert forall|c: char| name.drop_last().drop_first().contains(c) implies
            name.drop_first().contains(c) by {
            let k = choose|k: int|
                0 <= k < name.drop_last().drop_first().len() && name.drop_last().drop_first()[k]
                    == c;
            assert(name.drop_first()[k] == c);
        }
        no_dot_behind(name.drop_last());
    } else {
        reveal_with_fuel(last_dot, 3);
    }
}

proof fn dot_is_last(stem: Seq<char>, e: Seq<char>)
    requires
        !e.contains('.'),
    ensures
        last_dot(stem + seq!['.'] + e) == stem.len(),
    decreases e.len(),
{
    let name = stem + seq!['.'] + e;
    if e.len() > 0 {
        assert(e.contains(e.last()));
        assert(name.last() == e.last());
        assert(name.drop_last() =~= stem + seq!['.'] + e.drop_last());
        assert forall|c: char| e.drop_last().contains(c) implies e.contains(c) by {
            let k = choose|k: int| 0 <= k < e.drop_last().len() && e.drop_last()[k] == c;
            assert(e[k] == c);
        }
        dot_is_last(stem, e.drop_last());
    } else {
        assert(name.last() == '.');
    }
}

/// A path with backslashes for slashes.
pub open spec fn backslashed(s: Seq<char>) -> Seq<char> {
    s.map_values(|c: char| if c == '/' { '\\' } else { c })
}

pub fn to_backslashes(s: &str) -> (r: Vec<char>)
    ensures
        r@ == backslashed(s@),
{
    let chars = chars_of(s);
    let mut r: Vec<char> = Vec::new();
    for i in 0..chars.len()
        invariant
            chars@ == s@,
            r@ =~= backslashed(s@).take(i as int),
    {
        if chars[i] == '/' {
            r.push('\\');
        } else {
            r.push(chars[i]);
        }
    }
    assert(backslashed(s@).take(s@.len() as int) =~= backslashed(s@));
    r
}

/// `s` without the backslashes at its end.
pub open spec fn without_trailing_backslashes(s: Seq<char>) -> Seq<char>
    decreases s.len(),
{
    if s.len() > 0 && s.last() == '\\' {
        without_trailing_backslashes(s.drop_last())
    } else {
        s
    }
}

/// Drops the backslashes at the end.
pub fn trim_trailing_backslashes(s: Vec<char>) -> (r: Vec<char>)
    ensures
        r@ == without_trailing_backslashes(s@),
{
    let mut r = s;
    while r.len() > 0 && r[r.len() - 1] == '\\'
        invariant
            without_trailing_backslashes(r@) == without_trailing_backslashes(s@),
        decreases r.len(),
    {
        let ghost before = r@;
        let _ = r.pop();
        assert(r@ =~= before.drop_last());
    }
    r
}

/// The systems whose paths differ.
#[derive(Debug, Clone, Copy, PartialEq, Eq, Structural)]
pub enum Platform {
    Windows,
    MacOs,
    Other,
}

/// What tells paths apart: on Windows neither case nor kind of slash.
pub open spec fn path_key_of(platform: Platform, path: Seq<char>) -> Seq<char> {
    if platform == Platform::Windows {
        text::lowercase(backslashed(path))
    } else {
        path
    }
}

/// What tells paths apart.
pub fn path_key(platform: Platform, path: &str) -> (r: String)
    ensures
        r@ == path_key_of(platform, path@),
{
    match platform {
        Platform::Windows => to_lowercase(string_of(&to_backslashes(path)).as_str()),
        _ => path.to_owned(),
    }
}

/// `path` is `ancestor` or lies below it, as Windows sees it.
pub open spec fn within_on_windows(path: Seq<char>, ancestor: Seq<char>) -> bool {
    let p = text::lowercase(backslashed(path));
    let a = text::lowercase(without_trailing_backslashes(backslashed(ancestor)));
    p == a || a.push('\\').is_prefix_of(p)
}

/// Whether `path` is `ancestor` or lies below it, as Windows sees it.
pub fn windows_path_is_within(path: &str, ancestor: &str) -> (r: bool)
    ensures
        r == within_on_windows(path@, ancestor@),
{
    let p = chars_of(to_lowercase(string_of(&to_backslashes(path)).as_str()).as_str());
    let trimmed = trim_trailing_backslashes(to_backslashes(ancestor));
    let a = to_lowercase(string_of(&trimmed).as_str());
    let mut a = chars_of(a.as_str());
    if p.len() == a.len() && text::starts_with(&p, &a) {
        assert(p@ =~= a@);
        return true;
    }
    assert(p@ != a@) by {
        if p@ == a@ {
            assert(a@.is_prefix_of(p@)) by {
                assert(p@ =~= p@.subrange(0, p@.len() as int));
            }
        }
    }
    a.push('\\');
    text::starts_with(&p, &a)
}

/// The components of a path with slashes: the root, a leading `.`, and the
/// names.
pub open spec fn components(s: Seq<char>) -> Seq<Seq<char>> {
    let names = names_of(text::pieces(s, |c: char| c == '/'));
    if s.len() > 0 && s[0] == '/' {
        seq![seq!['/']] + names
    } else if text::pieces(s, |c: char| c == '/')[0] == seq!['.'] {
        seq![seq!['.']] + names
    } else {
        names
    }
}

/// The pieces that name something.
pub open spec fn names_of(v: Seq<Seq<char>>) -> Seq<Seq<char>>
    decreases v.len(),
{
    if v.len() == 0 {
        Seq::empty()
    } else if v.last().len() == 0 || v.last() == seq!['.'] {
        names_of(v.drop_last())
    } else {
        names_of(v.drop_last()).push(v.last())
    }
}

fn names_something(piece: &Vec<char>) -> (r: bool)
    ensures
        r == !(piece@.len() == 0 || piece@ == seq!['.']),
{
    let dot: bool = piece.len() == 1 && piece[0] == '.';
    assert(dot == (piece@ =~= seq!['.'])) by {
        if piece@ =~= seq!['.'] {
            assert(piece@[0] == '.');
        }
    }
    piece.len() > 0 && !dot
}

/// The components of a path with slashes.
pub fn split_components(s: &str) -> (r: Vec<String>)
    ensures
        text::texts(r@) == components(s@),
{
    let chars = chars_of(s);
    let ghost p = |c: char| c == '/';
    let mut names: Vec<String> = Vec::new();
    let mut piece: Vec<char> = Vec::new();
    let mut first_is_dot: bool = false;
    let mut first: bool = true;
    assert(chars@.take(0) =~= Seq::empty());
    assert(text::pieces(chars@.take(0), p).drop_last() =~= Seq::empty());
    assert(text::texts(names@) =~= Seq::empty());
    for i in 0..chars.len()
        invariant
            p == (|c: char| c == '/'),
            ({
                let so_far = text::pieces(chars@.take(i as int), p);
                &&& so_far.len() > 0
                &&& piece@ == so_far.last()
                &&& text::texts(names@) == names_of(so_far.drop_last())
                &&& first == (so_far.len() == 1)
                &&& !first ==> first_is_dot == (so_far[0] == seq!['.'])
            }),
    {
        let c: char = chars[i];
        let ghost before = text::pieces(chars@.take(i as int), p);
        let ghost after = text::pieces(chars@.take(i + 1), p);
        let ghost old_names = names@;
        proof {
            assert(chars@.take(i + 1).drop_last() =~= chars@.take(i as int));
        }
        if c == '/' {
            assert(after == before.push(Seq::empty()));
            assert(after.drop_last() =~= before);
            let named: bool = names_something(&piece);
            if first {
                first_is_dot = piece.len() > 0 && !named;
                first = false;
            }
            if named {
                names.push(string_of(&piece));
                assert(text::texts(names@) =~= text::texts(old_names).push(piece@));
            }
            piece = Vec::new();
            assert(text::texts(names@) == names_of(after.drop_last()));
        } else {
            piece.push(c);
            assert(after.drop_last() =~= before.drop_last());
            assert(!first ==> after[0] == before[0]);
        }
    }
    assert(chars@.take(chars@.len() as int) =~= chars@);
    let ghost all = text::pieces(chars@, p);
    let ghost old_names = names@;
    let named: bool = names_something(&piece);
    if first {
        first_is_dot = piece.len() > 0 && !named;
    }
    if named {
        names.push(string_of(&piece));
        assert(text::texts(names@) =~= text::texts(old_names).push(piece@));
    }
    assert(text::texts(names@) == names_of(all));
    let mut r: Vec<String> = Vec::new();
    if chars.len() > 0 && chars[0] == '/' {
        let mut root = String::new();
        root.push('/');
        r.push(root);
        assert(root@ =~= seq!['/']);
    } else if first_is_dot {
        let mut dot = String::new();
        dot.push('.');
        r.push(dot);
        assert(dot@ =~= seq!['.']);
    }
    let ghost head = r@;
    let ghost tail = names@;
    r.append(&mut names);
    assert(text::texts(r@) =~= text::texts(head) + text::texts(tail));
    assert(text::texts(r@) =~= components(s@));
    r
}

/// Whether `root` starts the list `path`.
pub fn parts_within(path: &Vec<String>, root: &Vec<String>) -> (r: bool)
    ensures
        r == text::texts(root@).is_prefix_of(text::texts(path@)),
{
    if root.len() > path.len() {
        return false;
    }
    for i in 0..root.len()
        invariant
            root@.len() <= path@.len(),
            forall|j: int| 0 <= j < i ==> (#[trigger] text::texts(root@)[j]) == text::texts(path@)[j],
    {
        if !same_text(root[i].as_str(), path[i].as_str()) {
            assert(text::texts(root@)[i as int] != text::texts(path@)[i as int]);
            return false;
        }
    }
    assert(text::texts(root@) =~= text::texts(path@).subrange(0, root@.len() as int));
    true
}

/// `path` is `ancestor` or lies below it.
pub open spec fn within(platform: Platform, path: Seq<char>, ancestor: Seq<char>) -> bool {
    if platform == Platform::Windows {
        within_on_windows(path, ancestor)
    } else {
        components(ancestor).is_prefix_of(components(path))
    }
}

/// Whether `path` is `ancestor` or lies below it.
pub fn path_is_within(platform: Platform, path: &str, ancestor: &str) -> (r: bool)
    ensures
        r == within(platform, path@, ancestor@),
{
    match platform {
        Platform::Windows => windows_path_is_within(path, ancestor),
        _ => parts_within(&split_components(path), &split_components(ancestor)),
    }
}

/// Every path lies within itself.
pub proof fn path_lies_within_itself(path: Seq<char>)
    ensures
        within(Platform::MacOs, path, path),
        within(Platform::Other, path, path),
{
    assert(components(path) =~= components(path).subrange(0, components(path).len() as int));
}

/// What lies below a directory lies below the directories above it.
pub proof fn within_is_transitive(platform: Platform, a: Seq<char>, b: Seq<char>, c: Seq<char>)
    requires
        platform == Platform::MacOs || platform == Platform::Other,
        within(platform, a, b),
        within(platform, b, c),
    ensures
        within(platform, a, c),
{
    assert(components(c) =~= components(a).subrange(0, components(c).len() as int));
}

/// A path that the system has resolved: as shown to users, its components,
/// and its components as they are told apart.
#[derive(Debug)]
pub struct KnownPath {
    pub text: String,
    pub parts: Vec<String>,
    pub folded: Vec<String>,
}

/// Components as they are told apart: on Windows regardless of case.
pub open spec fn folded_parts(platform: Platform, parts: Seq<Seq<char>>) -> Seq<Seq<char>> {
    if platform == Platform::Windows {
        parts.map_values(|p: Seq<char>| text::lowercase(p))
    } else {
        parts
    }
}

impl KnownPath {
    /// The components that tell the path apart.
    pub open spec fn key(self) -> Seq<Seq<char>> {
        text::texts(self.folded@)
    }

    /// The path lies in `root` or is `root`.
    pub open spec fn inside(self, root: KnownPath) -> bool {
        root.key().is_prefix_of(self.key())
    }

    pub fn new(platform: Platform, text: String, parts: Vec<String>) -> (r: Self)
        ensures
            r.text == text,
            r.parts == parts,
            r.key() == folded_parts(platform, text::texts(parts@)),
    {
        let ghost wanted = folded_parts(platform, text::texts(parts@));
        let folded: Vec<String> = match platform {
            Platform::Windows => {
                let mut folded: Vec<String> = Vec::new();
                for i in 0..parts.len()
                    invariant
                        wanted == folded_parts(Platform::Windows, text::texts(parts@)),
                        text::texts(folded@) =~= wanted.take(i as int),
                {
                    let ghost before = folded@;
                    folded.push(to_lowercase(parts[i].as_str()));
                    assert(text::texts(folded@) =~= text::texts(before).push(
                        folded@.last()@,
                    ));
                }
                assert(wanted.take(parts@.len() as int) =~= wanted);
                folded
            },
            _ => copy_texts(&parts),
        };
        KnownPath { text, parts, folded }
    }

    pub fn is_inside(&self, root: &KnownPath) -> (r: bool)
        ensures
            r == self.inside(*root),
    {
        parts_within(&self.folded, &root.folded)
    }

    /// Whether both have the same components, letter for letter.
    pub fn same_parts(&self, other: &KnownPath) -> (r: bool)
        ensures
            r == (text::texts(self.parts@) == text::texts(other.parts@)),
    {
        same_texts(&self.parts, &other.parts)
    }
}

/// What a resolved path says.
#[verifier::ext_equal]
pub struct KnownModel {
    pub text: Seq<char>,
    pub parts: Seq<Seq<char>>,
    pub key: Seq<Seq<char>>,
}

impl View for KnownPath {
    type V = KnownModel;

    open spec fn view(&self) -> KnownModel {
        KnownModel { text: self.text@, parts: text::texts(self.parts@), key: self.key() }
    }
}

pub open spec fn known_models(v: Seq<KnownPath>) -> Seq<KnownModel> {
    v.map_values(|p: KnownPath| p@)
}

/// One path lies in another or is the same.
pub open spec fn lies_in(path: KnownModel, root: KnownModel) -> bool {
    root.key.is_prefix_of(path.key)
}

/// One of `roots` holds the path.
pub open spec fn covered(path: KnownModel, roots: Seq<KnownModel>) -> bool {
    exists|i: int| 0 <= i < roots.len() && lies_in(path, #[trigger] roots[i])
}

/// How many components tell each path apart.
pub open spec fn depth_keys(dirs: Seq<KnownModel>) -> Seq<Seq<Seq<u64>>> {
    dirs.map_values(|d: KnownModel| seq![seq![d.key.len() as u64]])
}

/// The directories of `dirs`, in that order, that lie in none taken before.
pub open spec fn uncovered(dirs: Seq<KnownModel>) -> Seq<KnownModel>
    decreases dirs.len(),
{
    if dirs.len() == 0 {
        Seq::empty()
    } else {
        let taken = uncovered(dirs.drop_last());
        if covered(dirs.last(), taken) {
            taken
        } else {
            taken.push(dirs.last())
        }
    }
}

/// `roots` are the directories to watch so that all of `dirs` are covered:
/// upper ones first, each only if no other one holds it.
pub open spec fn is_coverage(dirs: Seq<KnownModel>, roots: Seq<KnownModel>) -> bool {
    exists|order: Seq<usize>|
        #[trigger] order::is_stable_order(depth_keys(dirs), order) && roots == uncovered(
            order::arranged(dirs, order),
        )
}

/// The texts of paths.
pub open spec fn path_texts(v: Seq<KnownModel>) -> Seq<Seq<char>> {
    v.map_values(|p: KnownModel| p.text)
}

fn is_covered(path: &KnownPath, dirs: &Vec<KnownPath>, taken: &Vec<usize>) -> (r: bool)
    requires
        forall|i: int| 0 <= i < taken@.len() ==> (#[trigger] taken@[i]) < dirs@.len(),
    ensures
        r == covered(path@, order::arranged(known_models(dirs@), taken@)),
{
    let ghost roots = order::arranged(known_models(dirs@), taken@);
    for i in 0..taken.len()
        invariant
            roots == order::arranged(known_models(dirs@), taken@),
            forall|j: int| 0 <= j < taken@.len() ==> (#[trigger] taken@[j]) < dirs@.len(),
            forall|j: int| 0 <= j < i ==> !lies_in(path@, #[trigger] roots[j]),
    {
        assert(taken@[i as int] < dirs@.len());
        assert(roots[i as int] == dirs@[taken@[i as int] as int]@);
        if path.is_inside(&dirs[taken[i]]) {
            return true;
        }
    }
    false
}

/// The fewest of `dirs` that cover all of them, upper ones first.
pub fn minimal_coverage_roots(dirs: &Vec<KnownPath>) -> (r: Vec<String>)
    ensures
        exists|roots: Seq<KnownModel>|
            #[trigger] is_coverage(known_models(dirs@), roots) && text::texts(r@) == path_texts(
                roots,
            ),
{
    let ghost models = known_models(dirs@);
    let mut keys: Vec<Key> = Vec::new();
    for i in 0..dirs.len()
        invariant
            models == known_models(dirs@),
            keys@.len() == i,
            forall|j: int| 0 <= j < i ==> (#[trigger] keys@[j]).deep_view() == depth_keys(models)[j],
    {
        let mut word: Vec<u64> = Vec::new();
        word.push(dirs[i].folded.len() as u64);
        let mut key: Key = Vec::new();
        key.push(word);
        assert(key.deep_view() =~~= depth_keys(models)[i as int]);
        keys.push(key);
    }
    assert(keys.deep_view() =~= depth_keys(models));
    let order = stable_order(&keys);
    let mut taken: Vec<usize> = Vec::new();
    let mut r: Vec<String> = Vec::new();
    assert(order::arranged(models, order@).take(0) =~= Seq::empty());
    assert(order::arranged(models, taken@) =~= Seq::empty());
    assert(text::texts(r@) =~= path_texts(order::arranged(models, taken@)));
    for i in 0..order.len()
        invariant
            models == known_models(dirs@),
            order::is_stable_order(depth_keys(models), order@),
            forall|j: int| 0 <= j < taken@.len() ==> (#[trigger] taken@[j]) < dirs@.len(),
            order::arranged(models, taken@) == uncovered(
                order::arranged(models, order@).take(i as int),
            ),
            text::texts(r@) == path_texts(order::arranged(models, taken@)),
    {
        let place: usize = order[i];
        let ghost sorted = order::arranged(models, order@);
        let ghost before = taken@;
        let ghost old_r = r@;
        assert(place < models.len());
        assert(sorted.take(i + 1).drop_last() =~= sorted.take(i as int));
        assert(sorted.take(i + 1).last() == dirs@[place as int]@);
        if !is_covered(&dirs[place], dirs, &taken) {
            taken.push(place);
            r.push(dirs[place].text.clone());
            assert(order::arranged(models, taken@) =~= order::arranged(models, before).push(
                models[place as int],
            ));
            assert(text::texts(r@) =~= text::texts(old_r).push(dirs@[place as int].text@));
            assert(text::texts(r@) =~= path_texts(order::arranged(models, taken@)));
        }
    }
    let ghost roots = order::arranged(models, taken@);
    assert(order::arranged(models, order@).take(order@.len() as int) =~= order::arranged(
        models,
        order@,
    ));
    assert(is_coverage(models, roots));
    r
}

/// The chosen directories cover all of them.
pub proof fn coverage_is_complete(dirs: Seq<KnownModel>, roots: Seq<KnownModel>, i: int)
    requires
        is_coverage(dirs, roots),
        0 <= i < dirs.len() <= usize::MAX,
    ensures
        covered(dirs[i], roots),
{
    let order = choose|order: Seq<usize>|
        #[trigger] order::is_stable_order(depth_keys(dirs), order) && roots == uncovered(
            order::arranged(dirs, order),
        );
    assert(depth_keys(dirs).len() == dirs.len());
    assert(order.contains(i as usize));
    let k = choose|k: int| 0 <= k < order.len() && order[k] == i as usize;
    uncovered_covers(order::arranged(dirs, order), k);
}

/// Nothing but the given directories is chosen.
pub proof fn coverage_adds_nothing(dirs: Seq<KnownModel>, roots: Seq<KnownModel>, i: int)
    requires
        is_coverage(dirs, roots),
        0 <= i < roots.len(),
    ensures
        dirs.contains(roots[i]),
{
    let order = choose|order: Seq<usize>|
        #[trigger] order::is_stable_order(depth_keys(dirs), order) && roots == uncovered(
            order::arranged(dirs, order),
        );
    let k = uncovered_is_member(order::arranged(dirs, order), i);
    assert(order[k] < dirs.len());
    assert(dirs[order[k] as int] == roots[i]);
}

proof fn uncovered_covers(dirs: Seq<KnownModel>, i: int)
    requires
        0 <= i < dirs.len(),
    ensures
        covered(dirs[i], uncovered(dirs)),
    decreases dirs.len(),
{
    let short = dirs.drop_last();
    let taken = uncovered(short);
    let all = uncovered(dirs);
    let p = dirs[i];
    if i < short.len() {
        uncovered_covers(short, i);
        let k = choose|k: int| 0 <= k < taken.len() && lies_in(p, #[trigger] taken[k]);
        assert(all[k] == taken[k]);
        assert(lies_in(p, all[k]));
    } else if !covered(dirs.last(), taken) {
        assert(all[taken.len() as int] == p);
        assert(p.key =~= p.key.subrange(0, p.key.len() as int));
        assert(lies_in(p, all[taken.len() as int]));
    }
}

proof fn uncovered_is_member(dirs: Seq<KnownModel>, i: int) -> (k: int)
    requires
        0 <= i < uncovered(dirs).len(),
    ensures
        0 <= k < dirs.len(),
        dirs[k] == uncovered(dirs)[i],
    decreases dirs.len(),
{
    let taken = uncovered(dirs.drop_last());
    if i < taken.len() {
        let k = uncovered_is_member(dirs.drop_last(), i);
        assert(dirs[k] == dirs.drop_last()[k]);
        k
    } else {
        dirs.len() - 1
    }
}

/// None of the chosen directories lies in another one.
pub proof fn coverage_is_minimal(dirs: Seq<KnownModel>, roots: Seq<KnownModel>, i: int, j: int)
    requires
        is_coverage(dirs, roots),
        forall|k: int| 0 <= k < dirs.len() ==> (#[trigger] dirs[k]).key.len() <= u64::MAX,
        0 <= i < roots.len(),
        0 <= j < roots.len(),
        i != j,
    ensures
        !lies_in(roots[i], roots[j]),
{
    let order = choose|order: Seq<usize>|
        #[trigger] order::is_stable_order(depth_keys(dirs), order) && roots == uncovered(
            order::arranged(dirs, order),
        );
    let sorted = order::arranged(dirs, order);
    arranged_by_depth(dirs, order);
    uncovered_is_minimal(sorted, i, j);
}

/// Directories in their order for coverage go down.
proof fn arranged_by_depth(dirs: Seq<KnownModel>, order: Seq<usize>)
    requires
        order::is_stable_order(depth_keys(dirs), order),
        forall|k: int| 0 <= k < dirs.len() ==> (#[trigger] dirs[k]).key.len() <= u64::MAX,
    ensures
        forall|a: int, b: int|
            0 <= a < b < order.len() ==> (#[trigger] order::arranged(dirs, order)[a]).key.len() <= (
            #[trigger] order::arranged(dirs, order)[b]).key.len(),
        forall|a: int, b: int|
            0 <= a < b < order.len() && dirs[#[trigger] order[a] as int].key.len()
                == dirs[#[trigger] order[b] as int].key.len() ==> order[a] < order[b],
{
    let keys = depth_keys(dirs);
    assert forall|a: int, b: int| 0 <= a < b < order.len() implies dirs[#[trigger] order[a] as int].key.len()
        <= dirs[#[trigger] order[b] as int].key.len() && (dirs[order[a] as int].key.len()
        == dirs[order[b] as int].key.len() ==> order[a] < order[b]) by {
        let x = order[a] as int;
        let y = order[b] as int;
        assert(order::precedes(keys, x, y));
        assert(keys[x] == seq![seq![dirs[x].key.len() as u64]]);
        assert(keys[y] == seq![seq![dirs[y].key.len() as u64]]);
        single_word_order(dirs[x].key.len() as u64, dirs[y].key.len() as u64);
        single_word_order(dirs[y].key.len() as u64, dirs[x].key.len() as u64);
    }
    assert forall|a: int, b: int| 0 <= a < b < order.len() implies (#[trigger] order::arranged(
        dirs,
        order,
    )[a]).key.len() <= (#[trigger] order::arranged(dirs, order)[b]).key.len() by {
        assert(dirs[order[a] as int].key.len() <= dirs[order[b] as int].key.len());
    }
}

/// Of equal directories the first one is kept.
pub proof fn first_of_equal_directories_is_kept(
    dirs: Seq<KnownModel>,
    roots: Seq<KnownModel>,
    i: int,
    k: int,
)
    requires
        is_coverage(dirs, roots),
        forall|n: int| 0 <= n < dirs.len() ==> (#[trigger] dirs[n]).key.len() <= u64::MAX,
        dirs.len() <= usize::MAX,
        0 <= k < roots.len(),
        0 <= i < dirs.len(),
        dirs[i].key == roots[k].key,
        forall|n: int| 0 <= n < i ==> (#[trigger] dirs[n]).key != roots[k].key,
    ensures
        roots[k] == dirs[i],
{
    let order = choose|order: Seq<usize>|
        #[trigger] order::is_stable_order(depth_keys(dirs), order) && roots == uncovered(
            order::arranged(dirs, order),
        );
    let sorted = order::arranged(dirs, order);
    arranged_by_depth(dirs, order);
    assert(order.contains(i as usize));
    let p = choose|p: int| 0 <= p < order.len() && order[p] == i as usize;
    assert(sorted[p] == dirs[i]);
    assert forall|a: int| 0 <= a < p implies (#[trigger] sorted[a]).key != roots[k].key by {
        if sorted[a].key == roots[k].key {
            assert(sorted[a] == dirs[order[a] as int]);
            assert(sorted[p].key.len() == sorted[a].key.len());
            assert(order[a] < order[p]);
            assert(dirs[order[a] as int].key != roots[k].key);
        }
    }
    first_is_taken(sorted, p, k);
}

proof fn first_is_taken(dirs: Seq<KnownModel>, p: int, k: int)
    requires
        0 <= k < uncovered(dirs).len(),
        0 <= p < dirs.len(),
        dirs[p].key == uncovered(dirs)[k].key,
        forall|a: int| 0 <= a < p ==> (#[trigger] dirs[a]).key != dirs[p].key,
    ensures
        uncovered(dirs)[k] == dirs[p],
    decreases dirs.len(),
{
    let short = dirs.drop_last();
    let taken = uncovered(short);
    if p < short.len() {
        assert(short[p] == dirs[p]);
        if k < taken.len() {
            assert(uncovered(dirs)[k] == taken[k]);
            assert forall|a: int| 0 <= a < p implies (#[trigger] short[a]).key != short[p].key by {
                assert(short[a] == dirs[a]);
            }
            first_is_taken(short, p, k);
        } else {
            uncovered_covers(short, p);
            let h = choose|h: int| 0 <= h < taken.len() && lies_in(short[p], #[trigger] taken[h]);
            assert(lies_in(dirs.last(), taken[h]));
            assert(covered(dirs.last(), taken));
        }
    } else if k < taken.len() {
        let a = uncovered_is_member(short, k);
        assert(dirs[a] == short[a]);
        assert(dirs[a].key != dirs[p].key);
    }
}

/// The chosen directories are their own choice, in the same order.
pub proof fn coverage_of_coverage_is_the_same(
    dirs: Seq<KnownModel>,
    roots: Seq<KnownModel>,
    again: Seq<KnownModel>,
)
    requires
        is_coverage(dirs, roots),
        is_coverage(roots, again),
        forall|n: int| 0 <= n < dirs.len() ==> (#[trigger] dirs[n]).key.len() <= u64::MAX,
    ensures
        again == roots,
{
    let order = choose|order: Seq<usize>|
        #[trigger] order::is_stable_order(depth_keys(dirs), order) && roots == uncovered(
            order::arranged(dirs, order),
        );
    let sorted = order::arranged(dirs, order);
    arranged_by_depth(dirs, order);
    uncovered_goes_down(sorted);
    let second = choose|second: Seq<usize>|
        #[trigger] order::is_stable_order(depth_keys(roots), second) && again == uncovered(
            order::arranged(roots, second),
        );
    let keys = depth_keys(roots);
    assert forall|n: int| 0 <= n < roots.len() implies (#[trigger] roots[n]).key.len()
        <= u64::MAX by {
        coverage_adds_nothing(dirs, roots, n);
        let m = dirs.index_of(roots[n]);
        assert(dirs[m].key.len() <= u64::MAX);
    }
    assert forall|a: int, b: int| 0 <= a < b < keys.len() implies !order::key_less(
        #[trigger] keys[b],
        #[trigger] keys[a],
    ) by {
        assert(roots[a].key.len() <= roots[b].key.len());
        assert(keys[a] == seq![seq![roots[a].key.len() as u64]]);
        assert(keys[b] == seq![seq![roots[b].key.len() as u64]]);
        single_word_order(roots[b].key.len() as u64, roots[a].key.len() as u64);
    }
    assert forall|n: int| 0 <= n < roots.len() implies (#[trigger] order::arranged(
        roots,
        second,
    )[n]) == roots[n] by {
        order::sorted_list_stays(keys, second, n);
    }
    assert(order::arranged(roots, second) =~= roots);
    assert forall|i: int, j: int| 0 <= i < roots.len() && 0 <= j < roots.len() && i != j implies !(
    #[trigger] lies_in(roots[i], roots[j])) by {
        coverage_is_minimal(dirs, roots, i, j);
    }
    all_are_taken(roots);
}

proof fn uncovered_goes_down(dirs: Seq<KnownModel>)
    requires
        forall|a: int, b: int|
            0 <= a < b < dirs.len() ==> (#[trigger] dirs[a]).key.len() <= (
            #[trigger] dirs[b]).key.len(),
    ensures
        forall|a: int, b: int|
            0 <= a < b < uncovered(dirs).len() ==> (#[trigger] uncovered(dirs)[a]).key.len() <= (
            #[trigger] uncovered(dirs)[b]).key.len(),
    decreases dirs.len(),
{
    if dirs.len() > 0 {
        let short = dirs.drop_last();
        let taken = uncovered(short);
        let all = uncovered(dirs);
        assert forall|a: int, b: int| 0 <= a < b < short.len() implies (
        #[trigger] short[a]).key.len() <= (#[trigger] short[b]).key.len() by {
            assert(short[a] == dirs[a] && short[b] == dirs[b]);
        }
        uncovered_goes_down(short);
        assert forall|a: int, b: int| 0 <= a < b < all.len() implies (#[trigger] all[a]).key.len()
            <= (#[trigger] all[b]).key.len() by {
            assert(all[a] == taken[a]);
            if b < taken.len() {
                assert(all[b] == taken[b]);
            } else {
                let k = uncovered_is_member(short, a);
                assert(dirs[k] == short[k]);
                assert(dirs[k].key.len() <= dirs[dirs.len() - 1].key.len());
            }
        }
    }
}

proof fn all_are_taken(dirs: Seq<KnownModel>)
    requires
        forall|i: int, j: int|
            0 <= i < dirs.len() && 0 <= j < dirs.len() && i != j ==> !(#[trigger] lies_in(
                dirs[i],
                dirs[j],
            )),
    ensures
        uncovered(dirs) == dirs,
    decreases dirs.len(),
{
    if dirs.len() > 0 {
        let short = dirs.drop_last();
        assert forall|i: int, j: int|
            0 <= i < short.len() && 0 <= j < short.len() && i != j implies !(#[trigger] lies_in(
            short[i],
            short[j],
        )) by {
            assert(!lies_in(dirs[i], dirs[j]));
        }
        all_are_taken(short);
        assert(!covered(dirs.last(), short)) by {
            assert forall|j: int| 0 <= j < short.len() implies !lies_in(
                dirs.last(),
                #[trigger] short[j],
            ) by {
                assert(!lies_in(dirs[dirs.len() - 1], dirs[j]));
            }
        }
        assert(short.push(dirs.last()) =~= dirs);
    }
}

proof fn single_word_order(a: u64, b: u64)
    ensures
        order::key_less(seq![seq![a]], seq![seq![b]]) == (a < b),
{
    let x = seq![seq![a]];
    let y = seq![seq![b]];
    reveal_with_fuel(order::word_less, 3);
    reveal_with_fuel(order::key_less, 3);
    assert(x[0] == seq![a] && y[0] == seq![b]);
    assert(x.drop_first() =~= Seq::empty());
    assert(y.drop_first() =~= Seq::empty());
}

proof fn uncovered_is_minimal(dirs: Seq<KnownModel>, i: int, j: int)
    requires
        forall|a: int, b: int|
            0 <= a < b < dirs.len() ==> (#[trigger] dirs[a]).key.len() <= (
            #[trigger] dirs[b]).key.len(),
        0 <= i < uncovered(dirs).len(),
        0 <= j < uncovered(dirs).len(),
        i != j,
    ensures
        !lies_in(uncovered(dirs)[i], uncovered(dirs)[j]),
    decreases dirs.len(),
{
    let short = dirs.drop_last();
    let taken = uncovered(short);
    let all = uncovered(dirs);
    assert forall|a: int, b: int| 0 <= a < b < short.len() implies (#[trigger] short[a]).key.len()
        <= (#[trigger] short[b]).key.len() by {
        assert(short[a] == dirs[a] && short[b] == dirs[b]);
    }
    if i < taken.len() && j < taken.len() {
        uncovered_is_minimal(short, i, j);
    } else if j < taken.len() {
        assert(!covered(dirs.last(), taken));
        assert(all[j] == taken[j]);
    } else {
        assert(!covered(dirs.last(), taken));
        assert(all[i] == taken[i]);
        assert(all[j] == dirs.last());
        let k = uncovered_is_member(short, i);
        assert(dirs[k] == short[k]);
        assert(dirs[k].key.len() <= dirs[dirs.len() - 1].key.len());
        if lies_in(all[i], all[j]) {
            assert(all[i].key =~= all[j].key);
            assert(lies_in(dirs.last(), taken[i])) by {
                assert(dirs.last().key =~= dirs.last().key.subrange(
                    0,
                    dirs.last().key.len() as int,
                ));
            }
        }
    }
}

/// The place of the deepest of `roots` that holds the path; of equally deep
/// ones the last.
pub open spec fn deepest(path: KnownModel, roots: Seq<KnownModel>) -> Option<int>
    decreases roots.len(),
{
    if roots.len() == 0 {
        None
    } else {
        let earlier = deepest(path, roots.drop_last());
        if !lies_in(path, roots.last()) {
            earlier
        } else {
            match earlier {
                Some(i) if roots[i].parts.len() > roots.last().parts.len() => earlier,
                _ => Some(roots.len() - 1),
            }
        }
    }
}

/// The place of the deepest of `roots` that holds the path.
pub fn deepest_root(path: &KnownPath, roots: &Vec<KnownPath>) -> (r: Option<usize>)
    ensures
        match deepest(path@, known_models(roots@)) {
            Some(i) => r is Some && r->0 == i && i < roots@.len(),
            None => r is None,
        },
{
    let ghost models = known_models(roots@);
    let mut best: Option<usize> = None;
    assert(models.take(0) =~= Seq::empty());
    for i in 0..roots.len()
        invariant
            models == known_models(roots@),
            match deepest(path@, models.take(i as int)) {
                Some(k) => best is Some && best->0 == k && 0 <= k < i,
                None => best is None,
            },
    {
        let ghost longer = models.take(i + 1);
        assert(longer.drop_last() =~= models.take(i as int));
        assert(longer.last() == roots@[i as int]@);
        if path.is_inside(&roots[i]) {
            let deeper: bool = match best {
                Some(k) => {
                    assert(longer[k as int] == roots@[k as int]@);
                    roots[k].parts.len() > roots[i].parts.len()
                },
                None => false,
            };
            if !deeper {
                best = Some(i);
            }
        }
    }
    assert(models.take(models.len() as int) =~= models);
    best
}

/// A root that is found holds the path.
pub proof fn deepest_root_holds_path(path: KnownModel, roots: Seq<KnownModel>)
    ensures
        deepest(path, roots) is None <==> !covered(path, roots),
        deepest(path, roots) matches Some(i) ==> 0 <= i < roots.len() && lies_in(path, roots[i])
            && forall|j: int|
            0 <= j < roots.len() && lies_in(path, #[trigger] roots[j]) ==> roots[j].parts.len()
                <= roots[i].parts.len(),
    decreases roots.len(),
{
    if roots.len() > 0 {
        let short = roots.drop_last();
        deepest_root_holds_path(path, short);
        assert forall|j: int| 0 <= j < short.len() implies #[trigger] roots[j] == short[j] by {}
        if covered(path, short) {
            let j = choose|j: int| 0 <= j < short.len() && lies_in(path, #[trigger] short[j]);
            assert(lies_in(path, roots[j]));
        }
        if covered(path, roots) && !lies_in(path, roots.last()) {
            let j = choose|j: int| 0 <= j < roots.len() && lies_in(path, #[trigger] roots[j]);
            assert(lies_in(path, short[j]));
        }
        if lies_in(path, roots.last()) {
            assert(lies_in(path, roots[roots.len() - 1]));
        }
    }
}

/// `s` behind `prefix`, if it starts with it.
pub open spec fn behind(s: Seq<char>, prefix: Seq<char>) -> Option<Seq<char>> {
    if prefix.is_prefix_of(s) {
        Some(s.skip(prefix.len() as int))
    } else {
        None
    }
}

/// A Windows path without the prefix that lifts limits on paths.
pub open spec fn without_verbatim_prefix(s: Seq<char>) -> Seq<char> {
    match behind(s, "\\\\?\\UNC\\"@) {
        Some(rest) => "\\\\"@ + rest,
        None => match behind(s, "\\\\?\\"@) {
            Some(rest) => rest,
            None => s,
        },
    }
}

/// The part of a path that users see.
pub fn user_facing_path(platform: Platform, path: &str) -> (r: String)
    ensures
        r@ == if platform == Platform::Windows {
            without_verbatim_prefix(path@)
        } else {
            path@
        },
{
    match platform {
        Platform::Windows => {
            let chars = chars_of(path);
            let share = chars_of("\\\\?\\UNC\\");
            let plain = chars_of("\\\\?\\");
            let (skip, head): (usize, &str) = if text::starts_with(&chars, &share) {
                (share.len(), "\\\\")
            } else if text::starts_with(&chars, &plain) {
                (plain.len(), "")
            } else {
                return path.to_owned();
            };
            let mut r = head.to_owned();
            let ghost start = head@;
            for i in skip..chars.len()
                invariant
                    skip <= chars@.len(),
                    r@ =~= start + chars@.subrange(skip as int, i as int),
            {
                r.push(chars[i]);
            }
            assert(chars@.subrange(skip as int, chars@.len() as int) =~= chars@.skip(skip as int));
            proof {
                reveal_strlit("");
                assert(start.len() == 0 ==> start + chars@.skip(skip as int) =~= chars@.skip(
                    skip as int,
                ));
            }
            r
        },
        _ => path.to_owned(),
    }
}

/// A name that a path can be made of.
pub open spec fn proper_name(s: Seq<char>) -> bool {
    s.len() > 0 && !s.contains('/') && s != seq!['.']
}

/// The path from the root through directories with these names.
pub open spec fn rooted_path(names: Seq<Seq<char>>) -> Seq<char> {
    text::joined_by(seq![Seq::<char>::empty()] + names, seq!['/'])
}

/// A path lies within another exactly if its first names are those of the
/// other: a longer name that begins like another is no directory inside it.
pub proof fn path_is_within_by_its_names(
    platform: Platform,
    path: Seq<Seq<char>>,
    ancestor: Seq<Seq<char>>,
)
    requires
        platform != Platform::Windows,
        path.len() > 0,
        ancestor.len() > 0,
        forall|i: int| 0 <= i < path.len() ==> proper_name(#[trigger] path[i]),
        forall|i: int| 0 <= i < ancestor.len() ==> proper_name(#[trigger] ancestor[i]),
    ensures
        within(platform, rooted_path(path), rooted_path(ancestor)) <==> ancestor.is_prefix_of(path),
{
    names_make_components(path);
    names_make_components(ancestor);
    let top = seq![seq!['/']];
    let p = top + path;
    let a = top + ancestor;
    if ancestor.len() <= path.len() {
        assert(p.take(a.len() as int).skip(1) =~= path.take(ancestor.len() as int));
        assert(a.skip(1) =~= ancestor);
        assert(p.take(a.len() as int) =~= top + path.take(ancestor.len() as int));
    }
}

/// The components of a path from the root are the root and its names.
pub proof fn names_make_components(names: Seq<Seq<char>>)
    requires
        names.len() > 0,
        forall|i: int| 0 <= i < names.len() ==> proper_name(#[trigger] names[i]),
    ensures
        components(rooted_path(names)) == seq![seq!['/']] + names,
{
    let all = seq![Seq::<char>::empty()] + names;
    let s = rooted_path(names);
    assert forall|i: int| 0 <= i < all.len() implies !(#[trigger] all[i]).contains('/') by {
        if i > 0 {
            assert(all[i] == names[i - 1]);
        }
    }
    text::joined_texts_come_apart(all, '/');
    starts_with_slash(names);
    assert(names_of(seq![Seq::<char>::empty()]) =~= Seq::empty()) by {
        assert(seq![Seq::<char>::empty()].drop_last() =~= Seq::empty());
        reveal_with_fuel(names_of, 2);
    }
    proper_names_are_kept(names);
}

proof fn proper_names_are_kept(names: Seq<Seq<char>>)
    requires
        forall|i: int| 0 <= i < names.len() ==> proper_name(#[trigger] names[i]),
    ensures
        names_of(seq![Seq::<char>::empty()] + names) == names,
    decreases names.len(),
{
    let all = seq![Seq::<char>::empty()] + names;
    if names.len() == 0 {
        assert(all.drop_last() =~= Seq::empty());
        reveal_with_fuel(names_of, 2);
        assert(names_of(all) =~= names);
    } else {
        let earlier = names.drop_last();
        assert forall|i: int| 0 <= i < earlier.len() implies proper_name(#[trigger] earlier[i]) by {
            assert(earlier[i] == names[i]);
        }
        proper_names_are_kept(earlier);
        assert(all.drop_last() =~= seq![Seq::<char>::empty()] + earlier);
        assert(proper_name(names[names.len() - 1]));
        assert(names_of(all) =~= names);
    }
}

proof fn starts_with_slash(names: Seq<Seq<char>>)
    requires
        names.len() > 0,
    ensures
        rooted_path(names).len() > 0,
        rooted_path(names)[0] == '/',
    decreases names.len(),
{
    let all = seq![Seq::<char>::empty()] + names;
    assert(all.drop_last() =~= seq![Seq::<char>::empty()] + names.drop_last());
    if names.len() == 1 {
        assert(text::joined_by(all.drop_last(), seq!['/']) =~= Seq::empty());
    } else {
        starts_with_slash(names.drop_last());
    }
}

/// On Windows the kind of slash does not matter, nor do slashes behind the
/// directory.
pub proof fn kind_of_slash_does_not_matter(path: Seq<char>, ancestor: Seq<char>, slash: char)
    requires
        slash == '/' || slash == '\\',
    ensures
        within_on_windows(path, ancestor) == within_on_windows(backslashed(path), ancestor),
        within_on_windows(path, ancestor) == within_on_windows(path, backslashed(ancestor)),
        within_on_windows(path, ancestor.push(slash)) == within_on_windows(path, ancestor),
{
    assert(backslashed(backslashed(path)) =~= backslashed(path));
    assert(backslashed(backslashed(ancestor)) =~= backslashed(ancestor));
    let b = backslashed(ancestor.push(slash));
    assert(b.drop_last() =~= backslashed(ancestor));
    assert(b.last() == '\\');
}

/// On Windows a path lies within a directory exactly if it is the same, or
/// goes on behind a backslash, once both are in small letters.
pub proof fn path_goes_on_behind_a_backslash(path: Seq<char>, ancestor: Seq<char>)
    requires
        ancestor.len() > 0,
        ancestor.last() != '/' && ancestor.last() != '\\',
    ensures
        within_on_windows(path, ancestor) <==> text::lowercase(backslashed(path)) == text::lowercase(
            backslashed(ancestor),
        ) || exists|rest: Seq<char>| #[trigger]
            (text::lowercase(backslashed(ancestor)) + seq!['\\'] + rest) == text::lowercase(
                backslashed(path),
            ),
        within_on_windows(ancestor, ancestor),
{
    let p = text::lowercase(backslashed(path));
    let b = backslashed(ancestor);
    assert(b.last() == ancestor.last());
    let a = text::lowercase(b);
    if a.push('\\').is_prefix_of(p) {
        let n = a.len() as int + 1;
        assert(p =~= p.take(n) + p.skip(n));
        assert(p.take(n) == a.push('\\'));
        assert(a.push('\\') =~= a + seq!['\\']);
        assert((a + seq!['\\'] + p.skip(n)) == p);
    }
    if exists|rest: Seq<char>| #[trigger] (a + seq!['\\'] + rest) == p {
        let rest = choose|rest: Seq<char>| #[trigger] (a + seq!['\\'] + rest) == p;
        assert(p.take(a.len() as int + 1) =~= a.push('\\'));
    }
}

/// Components are told apart as they are, on Windows in small letters.
pub proof fn components_are_told_apart(platform: Platform, parts: Seq<Seq<char>>, i: int)
    requires
        0 <= i < parts.len(),
    ensures
        folded_parts(platform, parts).len() == parts.len(),
        platform == Platform::Windows ==> folded_parts(platform, parts)[i] == text::lowercase(
            parts[i],
        ),
        platform != Platform::Windows ==> folded_parts(platform, parts)[i] == parts[i],
{
}

/// A path that the system wrote in its verbatim form is shown without it: a
/// share with two backslashes in front, anything else as it is.
pub proof fn verbatim_form_is_not_shown(rest: Seq<char>, other: Seq<char>)
    requires
        !seq!['U', 'N', 'C', '\\'].is_prefix_of(rest),
        !seq!['\\', '\\', '?', '\\'].is_prefix_of(other),
    ensures
        without_verbatim_prefix(seq!['\\', '\\', '?', '\\'] + rest) == rest,
        without_verbatim_prefix(seq!['\\', '\\', '?', '\\', 'U', 'N', 'C', '\\'] + rest) == seq![
            '\\',
            '\\',
        ] + rest,
        without_verbatim_prefix(other) == other,
{
    reveal_strlit("\\\\?\\UNC\\");
    reveal_strlit("\\\\?\\");
    reveal_strlit("\\\\");
    let short = seq!['\\', '\\', '?', '\\'];
    let long = seq!['\\', '\\', '?', '\\', 'U', 'N', 'C', '\\'];
    assert("\\\\?\\UNC\\"@ =~= long);
    assert("\\\\?\\"@ =~= short);
    assert("\\\\"@ =~= seq!['\\', '\\']);
    let a = short + rest;
    let b = long + rest;
    assert(a.take(4) =~= short && a.skip(4) =~= rest);
    assert(b.take(8) =~= long && b.skip(8) =~= rest);
    if long.is_prefix_of(a) {
        assert(rest.take(4) =~= a.take(8).skip(4));
        assert(long.skip(4) =~= seq!['U', 'N', 'C', '\\']);
    }
    if long.is_prefix_of(other) {
        assert(other.take(4) =~= other.take(8).take(4));
        assert(long.take(4) =~= short);
    }
}

proof fn first_piece_ends(style: PathStyle, piece: Seq<char>, rest: Seq<char>)
    requires
        single_name(piece),
        rest.len() == 0 || separator(style, rest[0]),
    ensures
        first_piece_len(style, piece + rest) == piece.len(),
    decreases piece.len(),
{
    let s = piece + rest;
    if piece.len() == 0 {
        assert(s =~= rest);
    } else {
        assert(piece.contains(piece[0]));
        assert(s.drop_first() =~= piece.drop_first() + rest);
        assert forall|c: char| piece.drop_first().contains(c) implies piece.contains(c) by {
            let k = choose|k: int| 0 <= k < piece.drop_first().len() && piece.drop_first()[k] == c;
            assert(piece[k + 1] == c);
        }
        first_piece_ends(style, piece.drop_first(), rest);
    }
}

/// On Windows the names of a server and its share are no name of a file: what
/// stands behind them is.
pub proof fn share_is_no_file_name(
    server: Seq<char>,
    share: Seq<char>,
    dir: Seq<char>,
    name: Seq<char>,
)
    requires
        single_name(server),
        single_name(share),
        server.len() > 0,
        share.len() > 0,
        server != seq!['?'],
        server != seq!['.'],
        single_name(name),
        name.len() > 0,
        name != seq!['.'],
        name != seq!['.', '.'],
        dir.len() == 0 || dir.last() == '\\' || dir.last() == '/',
    ensures
        file_name(
            Platform::Windows,
            seq!['\\', '\\'] + server + seq!['\\'] + share + seq!['\\'] + (dir + name),
        ) == Some(name),
        file_name(Platform::Windows, seq!['\\', '\\'] + server + seq!['\\'] + share) is None,
{
    let lead = seq!['\\', '\\'];
    let bar = seq!['\\'];
    let long = lead + server + bar + share + bar + (dir + name);
    let short = lead + server + bar + share;
    prefix_of_share(server, share, bar + (dir + name));
    prefix_of_share(server, share, Seq::empty());
    let n = 3 + server.len() + share.len();
    assert(long =~= lead + server + bar + share + (bar + (dir + name)));
    assert(short =~= lead + server + bar + share + Seq::<char>::empty());
    assert(long.skip(n as int)[0] == '\\');
    assert(path_body(Platform::Windows, long) =~= dir + name);
    name_is_last_component(PathStyle::Both, dir, name);
    assert(path_body(Platform::Windows, short) =~= Seq::<char>::empty());
}

proof fn prefix_of_share(server: Seq<char>, share: Seq<char>, rest: Seq<char>)
    requires
        single_name(server),
        single_name(share),
        server.len() > 0,
        share.len() > 0,
        server != seq!['?'],
        server != seq!['.'],
        rest.len() == 0 || rest[0] == '\\',
    ensures
        ({
            let s = seq!['\\', '\\'] + server + seq!['\\'] + share + rest;
            prefix_len(s) == 3 + server.len() + share.len() && !is_verbatim(s)
        }),
{
    let bar = seq!['\\'];
    let s = seq!['\\', '\\'] + server + bar + share + rest;
    assert(server.contains(server[0]));
    assert(share.contains(share[0]));
    assert(s[0] == '\\' && s[1] == '\\' && s[2] == server[0]);
    if server.len() > 1 {
        assert(server.contains(server[1]));
        assert(s[3] == server[1]);
    } else {
        assert(server[0] == '?' ==> server =~= seq!['?']);
        assert(server[0] == '.' ==> server =~= seq!['.']);
    }
    assert(!is_verbatim(s) && !is_device(s));
    let t = s.skip(2);
    assert(t =~= server + (bar + share + rest));
    first_piece_ends(PathStyle::Both, server, bar + share + rest);
    let u = t.skip(server.len() as int + 1);
    assert(u =~= share + rest);
    first_piece_ends(PathStyle::Both, share, rest);
    assert(share_len(PathStyle::Both, t) == server.len() + 1 + share.len());
    assert(is_share(s));
}

/// On Windows a verbatim path is parted by backslashes alone, behind its
/// drive.
pub proof fn verbatim_path_is_parted_by_backslashes(
    letter: char,
    dir: Seq<char>,
    name: Seq<char>,
)
    requires
        'a' <= letter <= 'z' || 'A' <= letter <= 'Z',
        dir.len() == 0 || dir.last() == '\\',
        !name.contains('\\'),
        name.len() > 0,
        name != seq!['.'],
        name != seq!['.', '.'],
    ensures
        file_name(
            Platform::Windows,
            seq!['\\', '\\', '?', '\\', letter, ':', '\\'] + (dir + name),
        ) == Some(name),
{
    let head = seq!['\\', '\\', '?', '\\', letter, ':', '\\'];
    let s = head + (dir + name);
    assert(is_verbatim(s));
    assert(s[4] == letter && s[5] == ':' && s[6] == '\\');
    assert(s.skip(4)[0] == letter && s.skip(4)[1] == ':');
    assert(!is_verbatim_share(s));
    assert(is_verbatim_drive(s));
    assert(s.skip(6)[0] == '\\');
    let body = dir + name;
    assert(path_body(Platform::Windows, s) =~= body);
    assert forall|j: int| dir.len() <= j < body.len() implies !separator(
        PathStyle::Verbatim,
        #[trigger] body[j],
    ) by {
        assert(body[j] == name[j - dir.len()]);
        assert(name.contains(name[j - dir.len()]));
    }
    last_piece_is_bounded(PathStyle::Verbatim, body, dir.len() as int);
    assert(body.skip(dir.len() as int) =~= name);
}

} // verus!
