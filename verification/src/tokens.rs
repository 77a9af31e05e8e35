//! The words by which files are found.

use crate::text;
use crate::text::{chars_of, contains_text, join_texts, same_text, string_of, to_lowercase};
use convert_case::{Case, Casing};
use jieba_rs::Jieba;
use pinyin::ToPinyin;
use vstd::prelude::*;
use zhconv::{zhconv, Variant};

verus! {

/// `jieba_rs::Jieba`: a dictionary that cuts Chinese text into words.
#[verifier::external_type_specification]
#[verifier::external_body]
pub struct ExJieba(Jieba);

/// `Jieba::new`: the dictionary that comes with the crate.
pub assume_specification[ Jieba::new ]() -> (r: Jieba)
;

/// Some texts behind one another.
pub open spec fn strung(v: Seq<Seq<char>>) -> Seq<char>
    decreases v.len(),
{
    if v.len() == 0 {
        Seq::empty()
    } else {
        strung(v.drop_last()) + v.last()
    }
}

/// `v` cuts `s` into words: behind one another they are `s`, and none is
/// empty.
pub open spec fn cuts(s: Seq<char>, v: Seq<Seq<char>>) -> bool {
    &&& strung(v) == s
    &&& forall|i: int| 0 <= i < v.len() ==> (#[trigger] v[i]).len() > 0
}

/// `Jieba::cut` without its statistical model: the words of the text, in
/// order, which together are the text. Where the cuts lie is left open: they
/// follow from logarithms, whose precision differs between machines.
#[verifier::external_body]
fn cut_words(dictionary: &Jieba, s: &str) -> (r: Vec<String>)
    ensures
        cuts(s@, text::texts(r@)),
{
    dictionary.cut(s, false).into_iter().map(str::to_owned).collect()
}

/// What `zhconv::zhconv` makes of a text for `Variant::ZhHans`.
pub uninterp spec fn simplified(s: Seq<char>) -> Seq<char>;

/// `zhconv::zhconv` for `Variant::ZhHans`: the text in simplified Chinese
/// characters, by the tables of the crate.
#[verifier::external_body]
fn to_simplified(s: &str) -> (r: String)
    ensures
        r@ == simplified(s@),
{
    zhconv(s, Variant::ZhHans)
}

/// How a character is pronounced: `pinyin::Pinyin::plain`, without tones.
pub uninterp spec fn pronounced(c: char) -> Option<Seq<char>>;

/// `pinyin::Pinyin::plain` of a character: how it is pronounced, without
/// tones, where the tables of the crate know it. That is never empty.
#[verifier::external_body]
fn plain_pinyin(c: char) -> (r: Option<String>)
    ensures
        match pronounced(c) {
            Some(p) => r is Some && r->0@ == p && p.len() > 0,
            None => r is None,
        },
{
    match c.to_pinyin() {
        Some(p) => Some(p.plain().to_owned()),
        None => None,
    }
}

/// `pinyin::Pinyin::first_letter` of a character: the first letter of how it
/// is pronounced.
#[verifier::external_body]
fn first_letter_pinyin(c: char) -> (r: Option<String>)
    ensures
        match pronounced(c) {
            Some(p) => r is Some && r->0@ == p.take(1),
            None => r is None,
        },
{
    match c.to_pinyin() {
        Some(p) => Some(p.first_letter().to_owned()),
        None => None,
    }
}

/// What `convert_case` makes of a text for `Case::Title`.
pub uninterp spec fn titled(s: Seq<char>) -> Seq<char>;

/// `convert_case::Casing::to_case` for `Case::Title`: the words of the text,
/// told apart by signs, digits and capitals, with a capital each.
#[verifier::external_body]
fn to_title(s: &str) -> (r: String)
    ensures
        r@ == titled(s@),
{
    s.to_case(Case::Title)
}

/// A capital of the Latin alphabet.
pub open spec fn ascii_capital(c: char) -> bool {
    'A' <= c && c <= 'Z'
}

pub open spec fn holds_capital(s: Seq<char>) -> bool {
    exists|i: int| 0 <= i < s.len() && ascii_capital(#[trigger] s[i])
}

/// The words of ASCII text, from its titled form: that form and the text
/// itself, both in small letters; the text alone where that says the same.
pub open spec fn ascii_words(s: Seq<char>, title: Seq<char>) -> Seq<char> {
    let lower = text::ascii_lowercase(s);
    let other = text::lowercase(title);
    if !holds_capital(s) || other == lower {
        lower
    } else {
        other.push(' ') + lower
    }
}

/// The words of ASCII text, from its titled form.
pub fn ascii_tokens(s: &str, title: &str) -> (r: String)
    requires
        vstd::utf8::is_ascii_chars(s@),
    ensures
        r@ == ascii_words(s@, title@),
{
    let lower = to_lowercase(s);
    let chars = chars_of(s);
    let mut capital: bool = false;
    for i in 0..chars.len()
        invariant
            chars@ == s@,
            capital == exists|j: int| 0 <= j < i && ascii_capital(#[trigger] s@[j]),
    {
        if 'A' <= chars[i] && chars[i] <= 'Z' {
            assert(ascii_capital(s@[i as int]));
            capital = true;
        }
    }
    if !capital {
        return lower;
    }
    let other = to_lowercase(title);
    if same_text(other.as_str(), lower.as_str()) {
        return lower;
    }
    let mut r = other;
    r.push(' ');
    r.append(lower.as_str());
    r
}

fn ascii_tokenize(s: &str) -> (r: String)
    requires
        vstd::utf8::is_ascii_chars(s@),
    ensures
        r@ == ascii_words(s@, titled(s@)),
{
    let title = to_title(s);
    ascii_tokens(s, title.as_str())
}

proof fn null_is_least(c: char)
    ensures
        '\0' <= c,
{
    let n = c as u32;
    assert(n >= 0);
}

fn is_ascii_text(s: &Vec<char>) -> (r: bool)
    ensures
        r == vstd::utf8::is_ascii_chars(s@),
{
    for i in 0..s.len()
        invariant
            forall|j: int| 0 <= j < i ==> '\0' <= (#[trigger] s@[j]) <= '\u{7f}',
    {
        let c: char = s[i];
        proof {
            null_is_least(c);
        }
        if c > '\u{7f}' {
            return false;
        }
    }
    true
}

/// A sign that separates the words of a query.
pub open spec fn query_sign(c: char) -> bool {
    c == '-' || c == '+' || c == ',' || c == '.' || c == ':' || c == '/' || c == '\\' || c == '_'
}

/// A sign that separates the words of a name.
pub open spec fn name_sign(c: char) -> bool {
    c == '-' || c == '_'
}

/// `s` with blanks in place of signs.
fn blank_signs(s: &str, query: bool) -> (r: Vec<char>)
    ensures
        r@ == text::replaced(
            s@,
            |c: char|
                if query {
                    query_sign(c)
                } else {
                    name_sign(c)
                },
            ' ',
        ),
{
    let ghost p = |c: char|
        if query {
            query_sign(c)
        } else {
            name_sign(c)
        };
    let chars = chars_of(s);
    let mut r: Vec<char> = Vec::new();
    for i in 0..chars.len()
        invariant
            chars@ == s@,
            p == (|c: char|
                if query {
                    query_sign(c)
                } else {
                    name_sign(c)
                }),
            r@ == text::replaced(s@, p, ' ').take(i as int),
    {
        let c: char = chars[i];
        let name: bool = c == '-' || c == '_';
        let other: bool = c == '+' || c == ',' || c == '.' || c == ':' || c == '/' || c == '\\';
        let ghost before = r@;
        if name || (query && other) {
            r.push(' ');
        } else {
            r.push(c);
        }
        assert(text::replaced(s@, p, ' ')[i as int] == r@.last());
        assert(r@ =~= text::replaced(s@, p, ' ').take(i + 1));
    }
    assert(text::replaced(s@, p, ' ').take(s@.len() as int) =~= text::replaced(s@, p, ' '));
    r
}

/// A list without repetitions: a text that is in it already is not added.
pub open spec fn with_token(v: Seq<Seq<char>>, s: Seq<char>) -> Seq<Seq<char>> {
    if v.contains(s) {
        v
    } else {
        v.push(s)
    }
}

pub open spec fn with_tokens(v: Seq<Seq<char>>, more: Seq<Seq<char>>) -> Seq<Seq<char>>
    decreases more.len(),
{
    if more.len() == 0 {
        v
    } else {
        with_token(with_tokens(v, more.drop_last()), more.last())
    }
}

fn add_token(v: &mut Vec<String>, s: String)
    ensures
        text::texts(final(v)@) == with_token(text::texts(old(v)@), s@),
{
    if !contains_text(v, s.as_str()) {
        let ghost before = text::texts(v@);
        v.push(s);
        assert(text::texts(v@) =~= before.push(s@));
    }
}

/// The words that a query in simplified Chinese looks for: those it is cut
/// into, and itself.
pub open spec fn query_list(s: Seq<char>, cut: Seq<Seq<char>>) -> Seq<Seq<char>> {
    with_token(with_tokens(Seq::empty(), cut), s)
}

pub open spec fn query_words(s: Seq<char>, cut: Seq<Seq<char>>) -> Seq<char> {
    text::joined_by(query_list(s, cut), " "@)
}

pub fn query_tokens(s: &str, cut: &Vec<String>) -> (r: String)
    ensures
        r@ == query_words(s@, text::texts(cut@)),
{
    let ghost all = text::texts(cut@);
    let mut tokens: Vec<String> = Vec::new();
    assert(text::texts(tokens@) =~= with_tokens(Seq::empty(), all.take(0)));
    for i in 0..cut.len()
        invariant
            all == text::texts(cut@),
            text::texts(tokens@) == with_tokens(Seq::empty(), all.take(i as int)),
    {
        assert(all.take(i + 1).drop_last() =~= all.take(i as int));
        add_token(&mut tokens, cut[i].clone());
    }
    assert(all.take(all.len() as int) =~= all);
    add_token(&mut tokens, s.to_owned());
    join_texts(&tokens, " ")
}

/// How a text is pronounced, character by character, where that is known.
pub open spec fn pronunciation(s: Seq<char>) -> Seq<Seq<char>>
    decreases s.len(),
{
    if s.len() == 0 {
        Seq::empty()
    } else {
        match pronounced(s.last()) {
            Some(p) => pronunciation(s.drop_last()).push(p),
            None => pronunciation(s.drop_last()),
        }
    }
}

/// First letters.
pub open spec fn initials_of(v: Seq<Seq<char>>) -> Seq<Seq<char>> {
    v.map_values(|p: Seq<char>| p.take(1))
}

/// How a text is pronounced, character by character, and the first letters
/// of that.
fn pronounce(s: &str) -> (r: (Vec<String>, Vec<String>))
    ensures
        text::texts(r.0@) == pronunciation(s@),
        text::texts(r.1@) == initials_of(pronunciation(s@)),
{
    let chars = chars_of(s);
    let mut full: Vec<String> = Vec::new();
    let mut first: Vec<String> = Vec::new();
    assert(text::texts(full@) =~= pronunciation(chars@.take(0)));
    assert(text::texts(first@) =~= initials_of(pronunciation(chars@.take(0))));
    for i in 0..chars.len()
        invariant
            text::texts(full@) == pronunciation(chars@.take(i as int)),
            text::texts(first@) == initials_of(pronunciation(chars@.take(i as int))),
    {
        let ghost full_before = text::texts(full@);
        let ghost first_before = text::texts(first@);
        assert(chars@.take(i + 1).drop_last() =~= chars@.take(i as int));
        match (plain_pinyin(chars[i]), first_letter_pinyin(chars[i])) {
            (Some(p), Some(f)) => {
                full.push(p);
                first.push(f);
                assert(text::texts(full@) =~= full_before.push(p@));
                assert(text::texts(first@) =~= first_before.push(f@));
                assert(initials_of(full_before.push(p@)) =~= initials_of(full_before).push(
                    p@.take(1),
                ));
            },
            _ => {},
        }
    }
    assert(chars@.take(chars@.len() as int) =~= chars@);
    (full, first)
}

fn string_together(v: &Vec<String>) -> (r: String)
    ensures
        r@ == strung(text::texts(v@)),
{
    let ghost all = text::texts(v@);
    let mut r = String::new();
    assert(r@ =~= strung(all.take(0)));
    for i in 0..v.len()
        invariant
            all == text::texts(v@),
            r@ == strung(all.take(i as int)),
    {
        assert(all.take(i + 1).drop_last() =~= all.take(i as int));
        r.append(v[i].as_str());
    }
    assert(all.take(all.len() as int) =~= all);
    r
}

/// A list with one more text, unless that is empty.
pub open spec fn with_some_token(v: Seq<Seq<char>>, s: Seq<char>) -> Seq<Seq<char>> {
    if s.len() == 0 {
        v
    } else {
        with_token(v, s)
    }
}

fn add_some_token(v: &mut Vec<String>, s: String)
    ensures
        text::texts(final(v)@) == with_some_token(text::texts(old(v)@), s@),
{
    if s.as_str().unicode_len() > 0 {
        add_token(v, s);
    }
}

/// What a word of a name adds: itself, the first letters of its characters
/// as they are pronounced, and all their letters.
pub open spec fn with_word(v: Seq<Seq<char>>, word: Seq<char>) -> Seq<Seq<char>> {
    let spoken = pronunciation(word);
    with_some_token(
        with_some_token(with_token(v, word), strung(initials_of(spoken))),
        strung(spoken),
    )
}

pub open spec fn with_words(v: Seq<Seq<char>>, words: Seq<Seq<char>>) -> Seq<Seq<char>>
    decreases words.len(),
{
    if words.len() == 0 {
        v
    } else {
        with_word(with_words(v, words.drop_last()), words.last())
    }
}

/// What the characters of a name add: the first letter and all letters of
/// each, as it is pronounced.
pub open spec fn with_sounds(v: Seq<Seq<char>>, spoken: Seq<Seq<char>>) -> Seq<Seq<char>>
    decreases spoken.len(),
{
    if spoken.len() == 0 {
        v
    } else {
        with_token(
            with_token(with_sounds(v, spoken.drop_last()), spoken.last().take(1)),
            spoken.last(),
        )
    }
}

/// The words by which a name in simplified Chinese is found: those that it
/// is cut into, how they and their characters are pronounced, and itself.
pub open spec fn name_list(s: Seq<char>, cut: Seq<Seq<char>>) -> Seq<Seq<char>> {
    with_token(with_sounds(with_words(Seq::empty(), cut), pronunciation(s)), s)
}

pub open spec fn name_words(s: Seq<char>, cut: Seq<Seq<char>>) -> Seq<char> {
    text::joined_by(name_list(s, cut), " "@)
}

pub fn name_tokens(s: &str, cut: &Vec<String>) -> (r: String)
    ensures
        r@ == name_words(s@, text::texts(cut@)),
{
    let ghost all = text::texts(cut@);
    let mut tokens: Vec<String> = Vec::new();
    assert(text::texts(tokens@) =~= with_words(Seq::empty(), all.take(0)));
    for i in 0..cut.len()
        invariant
            all == text::texts(cut@),
            text::texts(tokens@) == with_words(Seq::empty(), all.take(i as int)),
    {
        assert(all.take(i + 1).drop_last() =~= all.take(i as int));
        assert(all[i as int] == cut@[i as int]@);
        let (full, first) = pronounce(cut[i].as_str());
        add_token(&mut tokens, cut[i].clone());
        let initials = string_together(&first);
        add_some_token(&mut tokens, initials);
        let letters = string_together(&full);
        add_some_token(&mut tokens, letters);
    }
    assert(all.take(all.len() as int) =~= all);
    let (full, first) = pronounce(s);
    let ghost start = text::texts(tokens@);
    let ghost spoken = pronunciation(s@);
    assert(spoken.take(0) =~= Seq::empty());
    for i in 0..full.len()
        invariant
            spoken == text::texts(full@),
            initials_of(spoken) == text::texts(first@),
            text::texts(tokens@) == with_sounds(start, spoken.take(i as int)),
    {
        assert(initials_of(spoken).len() == spoken.len());
        assert(first@.len() == full@.len()) by {
            assert(text::texts(first@).len() == first@.len());
            assert(text::texts(full@).len() == full@.len());
        }
        assert(spoken.take(i + 1).drop_last() =~= spoken.take(i as int));
        assert(text::texts(first@)[i as int] == first@[i as int]@);
        assert(initials_of(spoken)[i as int] == spoken[i as int].take(1));
        add_token(&mut tokens, first[i].clone());
        add_token(&mut tokens, full[i].clone());
    }
    assert(spoken.take(spoken.len() as int) =~= spoken);
    add_token(&mut tokens, s.to_owned());
    join_texts(&tokens, " ")
}

proof fn token_stays(v: Seq<Seq<char>>, s: Seq<char>, k: Seq<char>)
    ensures
        with_token(v, s).contains(k) <==> v.contains(k) || k == s,
{
    vstd::seq_lib::lemma_seq_contains_after_push(v, s, k);
}

proof fn tokens_are_words(words: Seq<Seq<char>>, k: Seq<char>)
    ensures
        with_tokens(Seq::empty(), words).contains(k) ==> words.contains(k),
    decreases words.len(),
{
    if words.len() > 0 {
        let short = words.drop_last();
        tokens_are_words(short, k);
        token_stays(with_tokens(Seq::empty(), short), words.last(), k);
        if with_tokens(Seq::empty(), words).contains(k) {
            if k == words.last() {
                assert(words[words.len() - 1] == k);
            } else {
                let i = short.index_of(k);
                assert(short[i] == k);
                assert(words[i] == k);
            }
        }
    }
}

proof fn sounds_lose_nothing(v: Seq<Seq<char>>, spoken: Seq<Seq<char>>, k: Seq<char>)
    requires
        v.contains(k),
    ensures
        with_sounds(v, spoken).contains(k),
    decreases spoken.len(),
{
    if spoken.len() > 0 {
        let short = with_sounds(v, spoken.drop_last());
        sounds_lose_nothing(v, spoken.drop_last(), k);
        token_stays(short, spoken.last().take(1), k);
        token_stays(with_token(short, spoken.last().take(1)), spoken.last(), k);
    }
}

proof fn words_are_tokens(words: Seq<Seq<char>>, i: int)
    requires
        0 <= i < words.len(),
    ensures
        with_words(Seq::empty(), words).contains(words[i]),
    decreases words.len(),
{
    let k = words[i];
    let earlier = with_words(Seq::empty(), words.drop_last());
    if i < words.len() - 1 {
        words_are_tokens(words.drop_last(), i);
    }
    let word = words.last();
    let spoken = pronunciation(word);
    let a = with_token(earlier, word);
    let b = with_some_token(a, strung(initials_of(spoken)));
    token_stays(earlier, word, k);
    token_stays(a, strung(initials_of(spoken)), k);
    token_stays(b, strung(spoken), k);
}

/// A file is found by its own name: every word that the name looks for as a
/// query is one of those by which the file is found.
pub proof fn name_is_found_by_its_words(s: Seq<char>, cut: Seq<Seq<char>>, k: Seq<char>)
    requires
        query_list(s, cut).contains(k),
    ensures
        name_list(s, cut).contains(k),
{
    let words = with_words(Seq::empty(), cut);
    let sounds = with_sounds(words, pronunciation(s));
    token_stays(with_tokens(Seq::empty(), cut), s, k);
    token_stays(sounds, s, k);
    if k != s {
        tokens_are_words(cut, k);
        let i = cut.index_of(k);
        assert(cut[i] == k);
        words_are_tokens(cut, i);
        sounds_lose_nothing(words, pronunciation(s), k);
    }
}

/// A file is found by how a word of its name is pronounced.
pub proof fn name_is_found_by_its_sound(s: Seq<char>, cut: Seq<Seq<char>>, i: int)
    requires
        0 <= i < cut.len(),
        strung(pronunciation(cut[i])).len() > 0,
    ensures
        name_list(s, cut).contains(strung(pronunciation(cut[i]))),
{
    let words = with_words(Seq::empty(), cut);
    let sound = strung(pronunciation(cut[i]));
    sound_is_token(cut, i);
    sounds_lose_nothing(words, pronunciation(s), sound);
    token_stays(with_sounds(words, pronunciation(s)), s, sound);
}

proof fn sound_is_token(words: Seq<Seq<char>>, i: int)
    requires
        0 <= i < words.len(),
        strung(pronunciation(words[i])).len() > 0,
    ensures
        with_words(Seq::empty(), words).contains(strung(pronunciation(words[i]))),
    decreases words.len(),
{
    let k = strung(pronunciation(words[i]));
    let earlier = with_words(Seq::empty(), words.drop_last());
    if i < words.len() - 1 {
        sound_is_token(words.drop_last(), i);
    }
    let word = words.last();
    let spoken = pronunciation(word);
    let a = with_token(earlier, word);
    let b = with_some_token(a, strung(initials_of(spoken)));
    token_stays(earlier, word, k);
    token_stays(a, strung(initials_of(spoken)), k);
    token_stays(b, strung(spoken), k);
}

/// `words` are those by which a file of that name is found: those of ASCII
/// text, or those that the name in simplified Chinese is cut into.
pub open spec fn finds_name(name: Seq<char>, words: Seq<char>) -> bool {
    if vstd::utf8::is_ascii_chars(name) {
        words == ascii_words(name, titled(name))
    } else {
        let simple = simplified(text::replaced(name, |c: char| name_sign(c), ' '));
        exists|cut: Seq<Seq<char>>|
            #[trigger] cuts(simple, cut) && words == name_words(simple, cut)
    }
}

/// Cuts names and queries into words.
pub struct Tokenizer {
    dictionary: Jieba,
}

impl Tokenizer {
    pub fn new() -> (r: Self)
    {
        Tokenizer { dictionary: Jieba::new() }
    }

    /// The words that a query looks for.
    pub fn search_tokenize(&self, value: &str) -> (r: String)
        ensures
            ({
                let blank = text::replaced(value@, |c: char| query_sign(c), ' ');
                if vstd::utf8::is_ascii_chars(blank) {
                    r@ == ascii_words(blank, titled(blank))
                } else {
                    exists|cut: Seq<Seq<char>>|
                        #[trigger] cuts(simplified(blank), cut) && r@ == query_words(
                            simplified(blank),
                            cut,
                        )
                }
            }),
    {
        let chars = blank_signs(value, true);
        assert(chars@ =~= text::replaced(value@, |c: char| query_sign(c), ' '));
        let blank = string_of(chars.as_slice());
        if is_ascii_text(&chars) {
            return ascii_tokenize(blank.as_str());
        }
        let simple = to_simplified(blank.as_str());
        let cut = cut_words(&self.dictionary, simple.as_str());
        query_tokens(simple.as_str(), &cut)
    }

    /// The words by which a name is found.
    pub fn tokenize(&self, value: &str) -> (r: String)
        ensures
            finds_name(value@, r@),
    {
        if is_ascii_text(&chars_of(value)) {
            return ascii_tokenize(value);
        }
        let chars = blank_signs(value, false);
        assert(chars@ =~= text::replaced(value@, |c: char| name_sign(c), ' '));
        let blank = string_of(chars.as_slice());
        let simple = to_simplified(blank.as_str());
        let cut = cut_words(&self.dictionary, simple.as_str());
        name_tokens(simple.as_str(), &cut)
    }
}

/// A text in ASCII is found in small letters, as it is, whatever else it is
/// found by; without capitals it is found by nothing else.
pub proof fn ascii_text_is_found_in_small_letters(s: Seq<char>, title: Seq<char>)
    ensures
        text::ascii_lowercase(s).is_suffix_of(ascii_words(s, title)),
        (forall|i: int| 0 <= i < s.len() ==> !('A' <= #[trigger] s[i] <= 'Z')) ==> ascii_words(
            s,
            title,
        ) == s,
        (exists|i: int| 0 <= i < s.len() && 'A' <= #[trigger] s[i] <= 'Z') && text::lowercase(title)
            != text::ascii_lowercase(s) ==> ascii_words(s, title) == text::lowercase(title) + seq![
            ' ',
        ] + text::ascii_lowercase(s),
{
    let lower = text::ascii_lowercase(s);
    let other = text::lowercase(title);
    let all = ascii_words(s, title);
    assert(all.subrange(all.len() - lower.len(), all.len() as int) =~= lower);
    if forall|i: int| 0 <= i < s.len() ==> !('A' <= #[trigger] s[i] <= 'Z') {
        assert(lower =~= s);
    }
    if holds_capital(s) {
        let i = choose|i: int| 0 <= i < s.len() && ascii_capital(#[trigger] s[i]);
        assert('A' <= s[i] <= 'Z');
    }
    if exists|i: int| 0 <= i < s.len() && 'A' <= #[trigger] s[i] <= 'Z' {
        let i = choose|i: int| 0 <= i < s.len() && 'A' <= #[trigger] s[i] <= 'Z';
        assert(ascii_capital(s[i]));
        assert(other.push(' ') =~= other + seq![' ']);
    }
}

/// A query looks for the words that it is cut into and for itself, each once
/// and for nothing else.
pub proof fn query_looks_for_its_words(s: Seq<char>, cut: Seq<Seq<char>>, k: Seq<char>)
    ensures
        query_list(s, cut).contains(k) <==> cut.contains(k) || k == s,
        query_list(s, cut).no_duplicates(),
{
    tokens_are_all_words(cut, k);
    token_stays(with_tokens(Seq::empty(), cut), s, k);
}

proof fn tokens_are_all_words(words: Seq<Seq<char>>, k: Seq<char>)
    ensures
        with_tokens(Seq::empty(), words).contains(k) <==> words.contains(k),
        with_tokens(Seq::empty(), words).no_duplicates(),
    decreases words.len(),
{
    if words.len() > 0 {
        let rest = words.drop_last();
        tokens_are_all_words(rest, k);
        token_stays(with_tokens(Seq::empty(), rest), words.last(), k);
        if words.contains(k) && k != words.last() {
            let i = choose|i: int| 0 <= i < words.len() && words[i] == k;
            assert(rest[i] == k);
        }
        if rest.contains(k) {
            let i = choose|i: int| 0 <= i < rest.len() && rest[i] == k;
            assert(words[i] == k);
        }
        assert(words[words.len() - 1] == words.last());
    }
}

/// `k` is a word of the name, or how one is pronounced, or the first letters
/// of that.
pub open spec fn tells_word(words: Seq<Seq<char>>, k: Seq<char>) -> bool {
    exists|i: int|
        #![trigger words[i]]
        0 <= i < words.len() && (k == words[i] || (k.len() > 0 && (k == strung(
            pronunciation(words[i]),
        ) || k == strung(initials_of(pronunciation(words[i]))))))
}

/// `k` is how a character is pronounced, or the first letter of that.
pub open spec fn tells_sound(spoken: Seq<Seq<char>>, k: Seq<char>) -> bool {
    exists|i: int|
        #![trigger spoken[i]]
        0 <= i < spoken.len() && (k == spoken[i] || k == spoken[i].take(1))
}

/// A name is found by the words that it is cut into, by how they are
/// pronounced and by the first letters of that, by how each of its characters
/// is pronounced and the first letter of that, and by itself: by each once,
/// and by nothing else.
pub proof fn name_is_found_by_words_and_sounds(s: Seq<char>, cut: Seq<Seq<char>>, k: Seq<char>)
    ensures
        name_list(s, cut).contains(k) <==> tells_word(cut, k) || tells_sound(pronunciation(s), k)
            || k == s,
        name_list(s, cut).no_duplicates(),
{
    words_are_told(cut, k);
    let v = with_words(Seq::empty(), cut);
    sounds_are_told(v, pronunciation(s), k);
    token_stays(with_sounds(v, pronunciation(s)), s, k);
}

proof fn words_are_told(words: Seq<Seq<char>>, k: Seq<char>)
    ensures
        with_words(Seq::empty(), words).contains(k) <==> tells_word(words, k),
        with_words(Seq::empty(), words).no_duplicates(),
    decreases words.len(),
{
    if words.len() > 0 {
        let rest = words.drop_last();
        let v = with_words(Seq::empty(), rest);
        let word = words.last();
        words_are_told(rest, k);
        let a = strung(initials_of(pronunciation(word)));
        let b = strung(pronunciation(word));
        token_stays(v, word, k);
        token_stays(with_token(v, word), a, k);
        token_stays(with_some_token(with_token(v, word), a), b, k);
        if tells_word(words, k) {
            let i = choose|i: int|
                #![trigger words[i]]
                0 <= i < words.len() && (k == words[i] || (k.len() > 0 && (k == strung(
                    pronunciation(words[i]),
                ) || k == strung(initials_of(pronunciation(words[i]))))));
            if i < rest.len() {
                assert(rest[i] == words[i]);
            }
        }
        if tells_word(rest, k) {
            let i = choose|i: int|
                #![trigger rest[i]]
                0 <= i < rest.len() && (k == rest[i] || (k.len() > 0 && (k == strung(
                    pronunciation(rest[i]),
                ) || k == strung(initials_of(pronunciation(rest[i]))))));
            assert(words[i] == rest[i]);
        }
        assert(words[words.len() - 1] == word);
    }
}

proof fn sounds_are_told(v: Seq<Seq<char>>, spoken: Seq<Seq<char>>, k: Seq<char>)
    requires
        v.no_duplicates(),
    ensures
        with_sounds(v, spoken).contains(k) <==> v.contains(k) || tells_sound(spoken, k),
        with_sounds(v, spoken).no_duplicates(),
    decreases spoken.len(),
{
    if spoken.len() > 0 {
        let rest = spoken.drop_last();
        let last = spoken.last();
        let w = with_sounds(v, rest);
        sounds_are_told(v, rest, k);
        token_stays(w, last.take(1), k);
        token_stays(with_token(w, last.take(1)), last, k);
        if tells_sound(spoken, k) {
            let i = choose|i: int|
                #![trigger spoken[i]]
                0 <= i < spoken.len() && (k == spoken[i] || k == spoken[i].take(1));
            if i < rest.len() {
                assert(rest[i] == spoken[i]);
            }
        }
        if tells_sound(rest, k) {
            let i = choose|i: int|
                #![trigger rest[i]]
                0 <= i < rest.len() && (k == rest[i] || k == rest[i].take(1));
            assert(spoken[i] == rest[i]);
        }
        assert(spoken[spoken.len() - 1] == last);
    }
}

/// Every character that can be pronounced is, in the order of the text.
pub proof fn every_character_is_pronounced(s: Seq<char>)
    ensures
        pronunciation(s) == s.filter(|c: char| pronounced(c) is Some).map_values(
            |c: char| pronounced(c)->0,
        ),
    decreases s.len(),
{
    let p = |c: char| pronounced(c) is Some;
    let f = |c: char| pronounced(c)->0;
    reveal(Seq::filter);
    if s.len() > 0 {
        every_character_is_pronounced(s.drop_last());
        let earlier = s.drop_last().filter(p);
        if p(s.last()) {
            assert(earlier.push(s.last()).map_values(f) =~= earlier.map_values(f).push(
                f(s.last()),
            ));
        }
    } else {
        assert(pronunciation(s) =~= s.filter(p).map_values(f));
    }
}

/// In a query blanks take the place of hyphen, plus, comma, dot, colon, both
/// slashes and the underscore; in a name, of hyphen and underscore.
pub proof fn signs_become_blanks(s: Seq<char>, i: int)
    requires
        0 <= i < s.len(),
    ensures
        text::replaced(s, |c: char| query_sign(c), ' ')[i] == if s[i] == '-' || s[i] == '+' || s[i]
            == ',' || s[i] == '.' || s[i] == ':' || s[i] == '/' || s[i] == '\\' || s[i] == '_' {
            ' '
        } else {
            s[i]
        },
        text::replaced(s, |c: char| name_sign(c), ' ')[i] == if s[i] == '-' || s[i] == '_' {
            ' '
        } else {
            s[i]
        },
{
}

} // verus!
