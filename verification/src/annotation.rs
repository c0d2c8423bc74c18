//! Type annotations as text: the names they use, and what the names stand for.
use crate::text::{
    chars_of, contains, find, find_in, is_text, is_white, is_whitespace, last_occurrence_is_found,
    lemma_find, lemma_occurs_one, lemma_split_first_nonempty, lemma_views_push, occurs_at,
    option_view, pieces, rfind, rfind_in, separator, split_first, split_on, split_where, squeeze,
    squeezed, stands_at, string_of, substring, subvec, trim, trim_end, trimmed, views,
};
use vstd::prelude::*;
use vstd::utf8::encode_utf8;

verus! {

/// What a module has to import for a name: `module` itself if `name` is empty, otherwise
/// `name` from it, under `alias` where there is one.
#[derive(Debug, PartialEq, Eq, Hash)]
pub struct ImportRequirement {
    pub module: String,
    pub name: String,
    pub alias: Option<String>,
}

/// What [`ImportRequirement`] stands for.
pub struct ImportRequirementView {
    pub module: Seq<char>,
    pub name: Seq<char>,
    pub alias: Option<Seq<char>>,
}

impl View for ImportRequirement {
    type V = ImportRequirementView;

    open spec fn view(&self) -> ImportRequirementView {
        ImportRequirementView {
            module: self.module@,
            name: self.name@,
            alias: option_view(self.alias),
        }
    }
}

impl Clone for ImportRequirement {
    fn clone(&self) -> (r: Self)
        ensures
            r@ == self@,
    {
        ImportRequirement {
            module: self.module.clone(),
            name: self.name.clone(),
            alias: match &self.alias {
                Some(alias) => Some(alias.clone()),
                None => None,
            },
        }
    }
}

/// An annotation, with the imports that its names need.
#[derive(Debug, PartialEq, Eq)]
pub struct FixtureAnnotation {
    pub text: String,
    pub imports: Vec<ImportRequirement>,
}

/// What [`FixtureAnnotation`] stands for.
pub struct FixtureAnnotationView {
    pub text: Seq<char>,
    pub imports: Seq<ImportRequirementView>,
}

impl View for FixtureAnnotation {
    type V = FixtureAnnotationView;

    open spec fn view(&self) -> FixtureAnnotationView {
        FixtureAnnotationView { text: self.text@, imports: views(self.imports@) }
    }
}

/// Copies a list of requirements.
pub fn clone_requirements(requirements: &Vec<ImportRequirement>) -> (r: Vec<ImportRequirement>)
    ensures
        views(r@) == views(requirements@),
{
    let mut out: Vec<ImportRequirement> = Vec::new();
    let mut i: usize = 0;
    while i < requirements.len()
        invariant
            i <= requirements@.len(),
            views(out@) =~= views(requirements@).take(i as int),
        decreases requirements@.len() - i,
    {
        let copy: ImportRequirement = requirements[i].clone();
        proof {
            lemma_views_push(out@, copy);
        }
        out.push(copy);
        i = i + 1;
    }
    assert(views(requirements@).take(requirements@.len() as int) =~= views(requirements@));
    out
}

impl Clone for FixtureAnnotation {
    fn clone(&self) -> (r: Self)
        ensures
            r@ == self@,
    {
        FixtureAnnotation {
            text: self.text.clone(),
            imports: clone_requirements(&self.imports),
        }
    }
}

/// A name that a module's imports bind, and what it stands for.
#[derive(Debug)]
pub struct ImportBinding {
    pub visible: String,
    pub requirement: ImportRequirement,
}

/// What [`ImportBinding`] stands for.
pub struct ImportBindingView {
    pub visible: Seq<char>,
    pub requirement: ImportRequirementView,
}

impl View for ImportBinding {
    type V = ImportBindingView;

    open spec fn view(&self) -> ImportBindingView {
        ImportBindingView { visible: self.visible@, requirement: self.requirement@ }
    }
}

/// A letter of ASCII or an underscore.
pub open spec fn starts_identifier(b: u8) -> bool {
    b == 0x5f || 0x41 <= b <= 0x5a || 0x61 <= b <= 0x7a
}

/// A letter or digit of ASCII or an underscore.
pub open spec fn continues_identifier(b: u8) -> bool {
    starts_identifier(b) || 0x30 <= b <= 0x39
}

/// A character that can start a name.
pub open spec fn is_start(c: char) -> bool {
    c as u32 <= 0x7f && starts_identifier(c as u8)
}

/// A character that can stand in a name.
pub open spec fn is_part(c: char) -> bool {
    c as u32 <= 0x7f && continues_identifier(c as u8)
}

/// Whether a byte can stand in a name.
pub fn is_ident(b: u8) -> (r: bool)
    ensures
        r == continues_identifier(b),
{
    b == 0x5f || (0x30 <= b && b <= 0x39) || (0x41 <= b && b <= 0x5a) || (0x61 <= b && b <= 0x7a)
}

/// Whether a character can stand in a name.
pub fn is_ident_char(c: char) -> (r: bool)
    ensures
        r == is_part(c),
{
    let u: u32 = c as u32;
    u <= 0x7f && is_ident(c as u8)
}

/// Whether a character can start a name.
pub fn is_ident_start(c: char) -> (r: bool)
    ensures
        r == is_start(c),
{
    let u: u32 = c as u32;
    if u > 0x7f {
        return false;
    }
    let b: u8 = c as u8;
    b == 0x5f || (0x41 <= b && b <= 0x5a) || (0x61 <= b && b <= 0x7a)
}

/// The end of the run of name characters that goes on at `i`.
pub open spec fn word_end(s: Seq<char>, i: int) -> int
    decreases s.len() - i,
{
    if 0 <= i < s.len() && is_part(s[i]) {
        word_end(s, i + 1)
    } else {
        i
    }
}

/// A name ends no earlier than it goes on, and within the text.
pub proof fn lemma_word_end(s: Seq<char>, i: int)
    ensures
        i <= word_end(s, i),
        i <= s.len() ==> word_end(s, i) <= s.len(),
    decreases s.len() - i,
{
    if 0 <= i < s.len() && is_part(s[i]) {
        lemma_word_end(s, i + 1);
    }
}

/// The words from `i` on: each starts at a name's first character and runs to the end of the
/// name.
pub open spec fn words_from(s: Seq<char>, i: int) -> Seq<(int, int)>
    decreases s.len() - i,
{
    if i < 0 || i >= s.len() {
        Seq::empty()
    } else if is_start(s[i]) {
        proof {
            lemma_word_end(s, i + 1);
        }
        seq![(i, word_end(s, i + 1))] + words_from(s, word_end(s, i + 1))
    } else {
        words_from(s, i + 1)
    }
}

/// Names that need no import.
pub open spec fn is_builtin(name: Seq<char>) -> bool {
    ||| name == "None"@
    ||| name == "list"@
    ||| name == "dict"@
    ||| name == "set"@
    ||| name == "tuple"@
    ||| name == "str"@
    ||| name == "int"@
    ||| name == "float"@
    ||| name == "bool"@
    ||| name == "bytes"@
}

/// What stands before `i`, white space apart, is a dot.
pub open spec fn follows_dot(s: Seq<char>, i: int) -> bool {
    let before = trim_end(s.take(i));
    before.len() > 0 && before.last() == '.'
}

/// The symbols among the first words: each word once, without attributes and builtins.
pub open spec fn symbols_of(s: Seq<char>, words: Seq<(int, int)>) -> Seq<Seq<char>>
    decreases words.len(),
{
    if words.len() == 0 {
        Seq::empty()
    } else {
        let before = symbols_of(s, words.drop_last());
        let (start, end) = words.last();
        let name = s.subrange(start, end);
        if follows_dot(s, start) || is_builtin(name) || before.contains(name) {
            before
        } else {
            before.push(name)
        }
    }
}

/// The names that an annotation refers to, in the order in which they first stand in it.
pub open spec fn symbols(annotation: Seq<char>) -> Seq<Seq<char>> {
    symbols_of(annotation, words_from(annotation, 0))
}

fn after_dot(s: &Vec<char>, start: usize) -> (r: bool)
    requires
        start <= s@.len(),
    ensures
        r == follows_dot(s@, start as int),
{
    let mut n: usize = start;
    while n > 0 && is_whitespace(s[n - 1])
        invariant
            n <= start <= s@.len(),
            trim_end(s@.take(start as int)) == trim_end(s@.take(n as int)),
        decreases n,
    {
        assert(s@.take(n as int).drop_last() =~= s@.take(n - 1));
        n = n - 1;
    }
    n > 0 && s[n - 1] == '.'
}

fn is_builtin_name(name: &String) -> (r: bool)
    ensures
        r == is_builtin(name@),
{
    is_text(name, "None") || is_text(name, "list") || is_text(name, "dict") || is_text(name, "set")
        || is_text(name, "tuple") || is_text(name, "str") || is_text(name, "int") || is_text(
        name,
        "float",
    ) || is_text(name, "bool") || is_text(name, "bytes")
}

/// Whether a text is among the given ones.
pub fn is_among(name: &str, texts: &Vec<String>) -> (r: bool)
    ensures
        r == views(texts@).contains(name@),
{
    let wanted: String = name.to_owned();
    let mut i: usize = 0;
    while i < texts.len()
        invariant
            i <= texts@.len(),
            wanted@ == name@,
            forall|j: int| 0 <= j < i ==> views(texts@)[j] != name@,
        decreases texts@.len() - i,
    {
        if texts[i] == wanted {
            assert(views(texts@)[i as int] == name@);
            return true;
        }
        i = i + 1;
    }
    false
}

/// The names that an annotation refers to: no attributes, no builtins, none twice.
pub fn annotation_symbols(annotation: &str) -> (r: Vec<String>)
    ensures
        views(r@) == symbols(annotation@),
{
    let s: Vec<char> = chars_of(annotation);
    let mut out: Vec<String> = Vec::new();
    let mut i: usize = 0;
    let ghost mut done: Seq<(int, int)> = Seq::empty();
    proof {
        assert(views(out@) =~= symbols_of(s@, done));
        assert(done + words_from(s@, 0) =~= words_from(s@, 0));
    }
    while i < s.len()
        invariant
            i <= s@.len(),
            views(out@) == symbols_of(s@, done),
            words_from(s@, 0) == done + words_from(s@, i as int),
        decreases s@.len() - i,
    {
        if is_ident_start(s[i]) {
            let start: usize = i;
            i = i + 1;
            while i < s.len() && is_ident_char(s[i])
                invariant
                    start < i <= s@.len(),
                    word_end(s@, start + 1) == word_end(s@, i as int),
                decreases s@.len() - i,
            {
                i = i + 1;
            }
            let name: String = substring(&s, start, i);
            proof {
                let word = (start as int, i as int);
                assert(done.push(word).drop_last() =~= done);
                assert(done + words_from(s@, start as int) =~= done.push(word) + words_from(
                    s@,
                    i as int,
                ));
                done = done.push(word);
                lemma_views_push(out@, name);
            }
            if !after_dot(&s, start) && !is_builtin_name(&name) && !is_among(name.as_str(), &out) {
                out.push(name);
            }
        } else {
            i = i + 1;
        }
    }
    assert(done + words_from(s@, i as int) =~= done);
    out
}

/// The word stands at `i`, and no name runs into it.
pub open spec fn word_at(s: Seq<char>, word: Seq<char>, i: int) -> bool {
    &&& 0 <= i < s.len()
    &&& is_start(s[i])
    &&& occurs_at(s, word, i)
    &&& i == 0 || !is_part(s[i - 1])
    &&& i + word.len() >= s.len() || !is_part(s[i + word.len()])
}

/// The word stands somewhere in the text.
pub open spec fn has_word(s: Seq<char>, word: Seq<char>) -> bool {
    exists|i: int| word_at(s, word, i)
}

fn is_word_at(s: &Vec<char>, word: &Vec<char>, i: usize) -> (r: bool)
    requires
        i < s@.len(),
    ensures
        r == word_at(s@, word@, i as int),
        r ==> word@.len() > 0 && i + word@.len() <= s.len(),
{
    if !is_ident_start(s[i]) || !stands_at(s, word, i) {
        return false;
    }
    let end: usize = i + word.len();
    (i == 0 || !is_ident_char(s[i - 1])) && (end >= s.len() || !is_ident_char(s[end]))
}

/// Whether a text uses a word.
pub fn contains_word(text: &str, word: &str) -> (r: bool)
    ensures
        r == has_word(text@, word@),
{
    let s: Vec<char> = chars_of(text);
    let w: Vec<char> = chars_of(word);
    let mut i: usize = 0;
    while i < s.len()
        invariant
            s@ == text@,
            w@ == word@,
            i <= s@.len(),
            forall|j: int| 0 <= j < i ==> !word_at(s@, w@, j),
        decreases s@.len() - i,
    {
        if is_word_at(&s, &w, i) {
            return true;
        }
        i = i + 1;
    }
    false
}

/// The bytes of a character, each as a character of its own.
pub open spec fn bytes_as_chars(c: char) -> Seq<char> {
    encode_utf8(seq![c]).map_values(|b: u8| b as char)
}

/// The text from `i` on, with the replacement in place of the word; every other character is
/// carried over byte by byte.
pub open spec fn replaced_from(
    s: Seq<char>,
    word: Seq<char>,
    replacement: Seq<char>,
    i: int,
) -> Seq<char>
    decreases s.len() - i,
{
    if i < 0 || i >= s.len() {
        Seq::empty()
    } else if word_at(s, word, i) {
        replacement + replaced_from(s, word, replacement, i + word.len())
    } else {
        bytes_as_chars(s[i]) + replaced_from(s, word, replacement, i + 1)
    }
}

/// The text with the replacement wherever the word stands.
pub open spec fn replaced(s: Seq<char>, word: Seq<char>, replacement: Seq<char>) -> Seq<char> {
    replaced_from(s, word, replacement, 0)
}

fn push_bytes(out: &mut String, c: char)
    ensures
        final(out)@ == old(out)@ + bytes_as_chars(c),
{
    let mut one: String = String::new();
    one.push(c);
    assert(one@ =~= seq![c]);
    let bytes: &[u8] = one.as_str().as_bytes();
    let ghost start = out@;
    let mut i: usize = 0;
    assert(start + bytes_as_chars(c).take(0) =~= start);
    while i < bytes.len()
        invariant
            i <= bytes@.len(),
            bytes@ == encode_utf8(seq![c]),
            out@ == start + bytes_as_chars(c).take(i as int),
        decreases bytes@.len() - i,
    {
        let b: u8 = bytes[i];
        out.push(b as char);
        i = i + 1;
        assert(out@ =~= start + bytes_as_chars(c).take(i as int));
    }
    assert(bytes_as_chars(c).take(bytes@.len() as int) =~= bytes_as_chars(c));
}

/// Puts the replacement wherever the word stands. A character outside ASCII comes out as the
/// characters that its bytes number.
pub fn replace_word(text: &str, word: &str, replacement: &str) -> (r: String)
    ensures
        r@ == replaced(text@, word@, replacement@),
{
    let s: Vec<char> = chars_of(text);
    let w: Vec<char> = chars_of(word);
    let mut out: String = String::new();
    let mut i: usize = 0;
    let ghost whole = replaced(text@, word@, replacement@);
    assert(out@ + whole =~= whole);
    while i < s.len()
        invariant
            s@ == text@,
            w@ == word@,
            i <= s@.len(),
            whole == out@ + replaced_from(s@, w@, replacement@, i as int),
        decreases s@.len() - i,
    {
        let ghost so_far = out@;
        if is_word_at(&s, &w, i) {
            out.append(replacement);
            assert(out@ + replaced_from(s@, w@, replacement@, i + w@.len()) =~= so_far
                + replaced_from(s@, w@, replacement@, i as int));
            i = i + w.len();
        } else {
            push_bytes(&mut out, s[i]);
            assert(out@ + replaced_from(s@, w@, replacement@, i + 1) =~= so_far + replaced_from(
                s@,
                w@,
                replacement@,
                i as int,
            ));
            i = i + 1;
        }
    }
    assert(out@ + replaced_from(s@, w@, replacement@, i as int) =~= out@);
    out
}

/// The text is made of name characters alone, and has one.
pub open spec fn is_name(word: Seq<char>) -> bool {
    word.len() > 0 && forall|i: int| 0 <= i < word.len() ==> is_part(#[trigger] word[i])
}

/// No name runs from the one text into the other.
spec fn are_apart(a: Seq<char>, b: Seq<char>) -> bool {
    a.len() > 0 && b.len() > 0 ==> !(is_part(a.last()) && is_part(b[0]))
}

/// A name stands in two texts one after the other where it stands in one of them, if none runs
/// from the one into the other.
proof fn lemma_words_of_both(a: Seq<char>, b: Seq<char>, word: Seq<char>)
    requires
        is_name(word),
        are_apart(a, b),
    ensures
        has_word(a + b, word) == (has_word(a, word) || has_word(b, word)),
{
    let s = a + b;
    let n = word.len() as int;
    if has_word(s, word) {
        let p = choose|p: int| word_at(s, word, p);
        assert forall|k: int| 0 <= k < n implies is_part(#[trigger] s[p + k]) by {
            assert(s.subrange(p, p + n)[k] == word[k]);
        }
        if p < a.len() {
            if p + n > a.len() {
                let k = a.len() - p;
                assert(is_part(s[p + k]));
                assert(is_part(s[p + (k - 1)]));
                assert(s[p + k] == b[0]);
                assert(s[p + (k - 1)] == a.last());
            }
            assert(a.subrange(p, p + n) =~= s.subrange(p, p + n));
            assert(word_at(a, word, p));
        } else {
            let q = p - a.len();
            assert(b.subrange(q, q + n) =~= s.subrange(p, p + n));
            assert(word_at(b, word, q));
        }
    }
    if has_word(a, word) {
        let p = choose|p: int| word_at(a, word, p);
        assert(a.subrange(p, p + n)[n - 1] == word[n - 1]);
        assert(s.subrange(p, p + n) =~= a.subrange(p, p + n));
        if p + n == a.len() && b.len() > 0 {
            assert(a.last() == word[n - 1]);
            assert(is_part(word[n - 1]));
            assert(s[p + n] == b[0]);
        }
        assert(word_at(s, word, p));
    }
    if has_word(b, word) {
        let q = choose|q: int| word_at(b, word, q);
        let p = q + a.len();
        assert(s.subrange(p, p + n) =~= b.subrange(q, q + n));
        if q == 0 && a.len() > 0 {
            assert(b.subrange(0, n)[0] == word[0]);
            assert(is_part(word[0]));
            assert(s[p - 1] == a.last());
        }
        assert(word_at(s, word, p));
    }
}

/// A run of name characters has no name in it but itself.
proof fn lemma_word_of_run(run: Seq<char>, word: Seq<char>)
    requires
        is_name(word),
        is_name(run),
        has_word(run, word),
    ensures
        word_at(run, word, 0),
        run == word,
{
    let p = choose|p: int| word_at(run, word, p);
    if p > 0 {
        assert(is_part(run[p - 1]));
    }
    if p + word.len() < run.len() {
        assert(is_part(run[p + word.len()]));
    }
    assert(run.subrange(0, run.len() as int) =~= run);
}

proof fn lemma_ascii_bytes(c: char)
    requires
        c as u32 <= 0x7f,
    ensures
        bytes_as_chars(c) == seq![c],
{
    let one = seq![c];
    assert(vstd::utf8::is_ascii_chars(one));
    vstd::utf8::is_ascii_chars_encode_utf8(one);
    assert(bytes_as_chars(c) =~= one);
}

/// No byte of a character outside ASCII is one of a name.
proof fn lemma_other_bytes(c: char)
    requires
        c as u32 > 0x7f,
    ensures
        bytes_as_chars(c).len() > 0,
        forall|k: int|
            0 <= k < bytes_as_chars(c).len() ==> !is_part(#[trigger] bytes_as_chars(c)[k]),
{
    let n = c as u32;
    assert(0xC0u8 | ((n >> 6) & 0x1F) as u8 >= 0x80) by (bit_vector);
    assert(0xE0u8 | ((n >> 12) & 0x0F) as u8 >= 0x80) by (bit_vector);
    assert(0xF0u8 | ((n >> 18) & 0x7) as u8 >= 0x80) by (bit_vector);
    assert(0x80u8 | (n & 0x3F) as u8 >= 0x80) by (bit_vector);
    assert(0x80u8 | ((n >> 6) & 0x3F) as u8 >= 0x80) by (bit_vector);
    assert(0x80u8 | ((n >> 12) & 0x3F) as u8 >= 0x80) by (bit_vector);
    let one = seq![c];
    assert(one.drop_first() =~= Seq::<char>::empty());
    assert(encode_utf8(one.drop_first()) =~= Seq::<u8>::empty());
    assert(encode_utf8(one) =~= vstd::utf8::encode_scalar(n));
}

/// No byte of a character outside a name is one of a name.
proof fn lemma_apart_bytes(c: char)
    requires
        !is_part(c),
    ensures
        bytes_as_chars(c).len() > 0,
        forall|k: int|
            0 <= k < bytes_as_chars(c).len() ==> !is_part(#[trigger] bytes_as_chars(c)[k]),
{
    if c as u32 <= 0x7f {
        lemma_ascii_bytes(c);
    } else {
        lemma_other_bytes(c);
    }
}

/// The text is ASCII.
pub open spec fn is_ascii(s: Seq<char>) -> bool {
    forall|i: int| 0 <= i < s.len() ==> #[trigger] s[i] as u32 <= 0x7f
}

/// A run of name characters goes on as far as it can.
pub proof fn lemma_word_end_runs(s: Seq<char>, i: int)
    requires
        0 <= i <= s.len(),
    ensures
        i <= word_end(s, i) <= s.len(),
        forall|k: int| i <= k < word_end(s, i) ==> is_part(#[trigger] s[k]),
        word_end(s, i) == s.len() || !is_part(s[word_end(s, i)]),
    decreases s.len() - i,
{
    if i < s.len() && is_part(s[i]) {
        lemma_word_end_runs(s, i + 1);
    }
}

/// What goes on inside a name is carried over up to the end of the name.
proof fn lemma_rest_of_run(
    s: Seq<char>,
    word: Seq<char>,
    replacement: Seq<char>,
    i: int,
    end: int,
)
    requires
        is_name(word),
        0 <= i <= end <= s.len(),
        forall|k: int| i <= k < end ==> is_part(#[trigger] s[k]),
        i < end ==> !word_at(s, word, i),
    ensures
        replaced_from(s, word, replacement, i) == s.subrange(i, end) + replaced_from(
            s,
            word,
            replacement,
            end,
        ),
    decreases end - i,
{
    if i < end {
        if i + 1 < end {
            assert(is_part(s[i]));
            assert(!word_at(s, word, i + 1));
        }
        lemma_rest_of_run(s, word, replacement, i + 1, end);
        lemma_ascii_bytes(s[i]);
        assert(s.subrange(i, end) =~= seq![s[i]] + s.subrange(i + 1, end));
        assert(replaced_from(s, word, replacement, i) =~= s.subrange(i, end) + replaced_from(
            s,
            word,
            replacement,
            end,
        ));
    } else {
        assert(s.subrange(i, end) + replaced_from(s, word, replacement, end) =~= replaced_from(
            s,
            word,
            replacement,
            end,
        ));
    }
}

/// What follows a name starts with no name character, replaced or not.
proof fn lemma_starts_apart(s: Seq<char>, word: Seq<char>, replacement: Seq<char>, i: int)
    requires
        0 <= i <= s.len(),
        i < s.len() ==> !is_part(s[i]),
    ensures
        replaced_from(s, word, replacement, i).len() > 0 ==> !is_part(
            replaced_from(s, word, replacement, i)[0],
        ),
{
    if i < s.len() {
        lemma_apart_bytes(s[i]);
    }
}

/// A text without name characters has no name in it.
proof fn lemma_no_words(s: Seq<char>, word: Seq<char>)
    requires
        is_name(word),
        forall|k: int| 0 <= k < s.len() ==> !is_part(#[trigger] s[k]),
    ensures
        !has_word(s, word),
{
    if has_word(s, word) {
        let p = choose|p: int| word_at(s, word, p);
        assert(s.subrange(p, p + word.len())[0] == word[0]);
        assert(is_part(s[p]));
    }
}

proof fn lemma_replaced_words(s: Seq<char>, word: Seq<char>, replacement: Seq<char>, i: int)
    requires
        is_name(word),
        0 <= i <= s.len(),
        0 < i < s.len() ==> !(is_part(s[i - 1]) && is_part(s[i])),
    ensures
        has_word(replaced_from(s, word, replacement, i), word) == (has_word(s.skip(i), word)
            && has_word(replacement, word)),
    decreases s.len() - i,
{
    let out = replaced_from(s, word, replacement, i);
    let rest = s.skip(i);
    if i == s.len() {
        assert(!has_word(out, word));
        assert(!has_word(rest, word));
    } else if !is_part(s[i]) {
        let one = seq![s[i]];
        let bytes = bytes_as_chars(s[i]);
        lemma_apart_bytes(s[i]);
        lemma_replaced_words(s, word, replacement, i + 1);
        lemma_no_words(one, word);
        lemma_no_words(bytes, word);
        lemma_words_of_both(bytes, replaced_from(s, word, replacement, i + 1), word);
        lemma_words_of_both(one, s.skip(i + 1), word);
        assert(rest =~= one + s.skip(i + 1));
    } else {
        let end = word_end(s, i);
        lemma_word_end_runs(s, i);
        let run = s.subrange(i, end);
        assert forall|k: int| 0 <= k < run.len() implies is_part(#[trigger] run[k]) by {
            assert(is_part(s[i + k]));
        }
        assert(end > i);
        let tail = replaced_from(s, word, replacement, end);
        lemma_starts_apart(s, word, replacement, end);
        lemma_replaced_words(s, word, replacement, end);
        assert(rest =~= run + s.skip(end));
        lemma_words_of_both(run, s.skip(end), word);
        if word_at(s, word, i) {
            let after = i + word.len();
            assert(s.subrange(i, after) == word);
            if after < end {
                assert(is_part(s[after]));
            }
            if end < after {
                assert(s.subrange(i, after)[end - i] == word[end - i]);
                assert(is_part(word[end - i]));
            }
            assert(after == end);
            assert(run.subrange(0, run.len() as int) =~= run);
            assert(word_at(run, word, 0));
            lemma_words_of_both(replacement, tail, word);
        } else {
            lemma_rest_of_run(s, word, replacement, i, end);
            lemma_words_of_both(run, tail, word);
            if has_word(run, word) {
                lemma_word_of_run(run, word);
                assert(s.subrange(i, i + word.len()) =~= word);
                assert(run[0] == s[i]);
                assert(word_at(s, word, i));
            }
        }
    }
}

proof fn lemma_replaced_unchanged(s: Seq<char>, word: Seq<char>, replacement: Seq<char>, i: int)
    requires
        is_ascii(s),
        0 <= i <= s.len(),
        !has_word(s, word) || replacement == word,
    ensures
        replaced_from(s, word, replacement, i) == s.skip(i),
    decreases s.len() - i,
{
    if i < s.len() {
        if word_at(s, word, i) {
            let after = i + word.len();
            if word.len() == 0 {
                assert(is_part(s[i]));
            }
            lemma_replaced_unchanged(s, word, replacement, after);
            assert(s.skip(i) =~= s.subrange(i, after) + s.skip(after));
        } else {
            lemma_ascii_bytes(s[i]);
            lemma_replaced_unchanged(s, word, replacement, i + 1);
            assert(s.skip(i) =~= seq![s[i]] + s.skip(i + 1));
        }
    } else {
        assert(s.skip(i) =~= Seq::<char>::empty());
    }
}

/// A word that is replaced is gone, unless the replacement holds it.
pub proof fn replaced_word_is_gone(s: Seq<char>, word: Seq<char>, replacement: Seq<char>)
    requires
        is_name(word),
    ensures
        has_word(replaced(s, word, replacement), word) == (has_word(s, word) && has_word(
            replacement,
            word,
        )),
{
    lemma_replaced_words(s, word, replacement, 0);
    assert(s.skip(0) =~= s);
}

/// A text stays as it is where the word does not stand in it, or is replaced by itself.
pub proof fn replacing_keeps_the_rest(s: Seq<char>, word: Seq<char>, replacement: Seq<char>)
    requires
        is_ascii(s),
        !has_word(s, word) || replacement == word,
    ensures
        replaced(s, word, replacement) == s,
{
    lemma_replaced_unchanged(s, word, replacement, 0);
    assert(s.skip(0) =~= s);
}

/// A bracket that opens.
pub open spec fn opens(c: char) -> bool {
    c == '[' || c == '(' || c == '{'
}

/// A bracket that closes.
pub open spec fn closes(c: char) -> bool {
    c == ']' || c == ')' || c == '}'
}

/// How many more brackets open than close among the first `n` characters.
pub open spec fn depth(s: Seq<char>, n: int) -> int
    decreases n,
{
    if n <= 0 {
        0
    } else if opens(s[n - 1]) {
        depth(s, n - 1) + 1
    } else if closes(s[n - 1]) {
        depth(s, n - 1) - 1
    } else {
        depth(s, n - 1)
    }
}

/// The commas that stand in no bracket.
pub open spec fn top_level_comma(s: Seq<char>) -> spec_fn(int) -> bool {
    |i: int| s[i] == ',' && depth(s, i) == 0
}

/// The arguments between the commas that stand in no bracket.
pub open spec fn top_level_args(args: Seq<char>) -> Seq<Seq<char>> {
    split_where(args, top_level_comma(args)).map_values(|piece: Seq<char>| trim(piece))
}

fn push_trimmed(out: &mut Vec<String>, piece: &Vec<char>)
    ensures
        views(final(out)@) == views(old(out)@).push(trim(piece@)),
{
    let text: String = string_of(&trimmed(piece));
    proof {
        lemma_views_push(out@, text);
    }
    out.push(text);
}

/// The arguments of a subscript, split at the commas that stand in no bracket.
pub fn split_top_level_args(args: &str) -> (r: Vec<String>)
    ensures
        views(r@) == top_level_args(args@),
        r@.len() >= 1,
{
    let s: Vec<char> = chars_of(args);
    let mut out: Vec<String> = Vec::new();
    let mut current: Vec<char> = Vec::new();
    let mut level: i128 = 0;
    let mut i: usize = 0;
    let ghost cut = top_level_comma(s@);
    let ghost tidy = |piece: Seq<char>| trim(piece);
    assert(views(out@) =~= split_first(s@, cut, 0).drop_last().map_values(tidy));
    while i < s.len()
        invariant
            i <= s@.len(),
            cut == top_level_comma(s@),
            tidy == (|piece: Seq<char>| trim(piece)),
            level == depth(s@, i as int),
            -i <= level <= i,
            split_first(s@, cut, i as int).len() >= 1,
            current@ == split_first(s@, cut, i as int).last(),
            views(out@) =~= split_first(s@, cut, i as int).drop_last().map_values(tidy),
        decreases s@.len() - i,
    {
        let ghost before = split_first(s@, cut, i as int);
        let c: char = s[i];
        if c == ',' && level == 0 {
            push_trimmed(&mut out, &current);
            current = Vec::new();
            assert(split_first(s@, cut, i + 1).drop_last() =~= before);
            assert(before =~= before.drop_last().push(before.last()));
            assert(current@ =~= Seq::<char>::empty());
        } else {
            if c == '[' || c == '(' || c == '{' {
                level = level + 1;
            } else if c == ']' || c == ')' || c == '}' {
                level = level - 1;
            }
            current.push(c);
            assert(split_first(s@, cut, i + 1).drop_last() =~= before.drop_last());
        }
        i = i + 1;
    }
    push_trimmed(&mut out, &current);
    proof {
        let all = split_first(s@, cut, i as int);
        assert(all =~= all.drop_last().push(all.last()));
        assert(views(out@) =~= all.map_values(tidy));
    }
    out
}

/// Wrappers that a fixture's annotation puts around the type of the value that it yields.
pub open spec fn is_wrapper(name: Seq<char>) -> bool {
    ||| name == "Generator"@
    ||| name == "Iterator"@
    ||| name == "AsyncGenerator"@
    ||| name == "AsyncIterator"@
}

/// The type that a generator or iterator annotation yields.
pub open spec fn yielded(annotation: Seq<char>) -> Option<Seq<char>> {
    let normalized = squeeze(annotation);
    match (find(normalized, "["@), rfind(normalized, "]"@)) {
        (Some(open), Some(close)) => if open < close && is_wrapper(
            split_on(normalized.take(open), '.').last(),
        ) {
            let first = top_level_args(normalized.subrange(open + 1, close))[0];
            if first.len() > 0 {
                Some(first)
            } else {
                None
            }
        } else {
            None
        },
        _ => None,
    }
}

/// The type of the value that a fixture with a generator or iterator annotation yields: the
/// wrapper's first argument.
pub fn unwrap_fixture_value_annotation(annotation: &str) -> (r: Option<String>)
    ensures
        option_view(r) == yielded(annotation@),
{
    let normalized: Vec<char> = squeezed(&chars_of(annotation));
    let bracket: Vec<char> = chars_of("[");
    let end_bracket: Vec<char> = chars_of("]");
    proof {
        reveal_strlit("[");
        reveal_strlit("]");
    }
    let open: usize = match find_in(&normalized, &bracket) {
        Some(open) => open,
        None => {
            return None;
        },
    };
    let close: usize = match rfind_in(&normalized, &end_bracket) {
        Some(close) => close,
        None => {
            return None;
        },
    };
    if close <= open {
        return None;
    }
    let head: Vec<char> = subvec(&normalized, 0, open);
    assert(head@ =~= normalized@.take(open as int));
    let parts: Vec<String> = pieces(&head, '.');
    let wrapper: &String = &parts[parts.len() - 1];
    assert(wrapper@ == split_on(head@, '.').last());
    if !(is_text(wrapper, "Generator") || is_text(wrapper, "Iterator") || is_text(
        wrapper,
        "AsyncGenerator",
    ) || is_text(wrapper, "AsyncIterator")) {
        return None;
    }
    let args: Vec<String> = split_top_level_args(substring(&normalized, open + 1, close).as_str());
    let first: String = args[0].clone();
    assert(first@ == top_level_args(normalized@.subrange(open + 1, close as int))[0]);
    if first.as_str().is_empty() {
        None
    } else {
        Some(first)
    }
}

/// The name under which an import is visible: its alias, else the imported name, else the last
/// part of the module.
pub open spec fn visible_name(import: ImportRequirementView) -> Seq<char> {
    match import.alias {
        Some(alias) => alias,
        None => if import.name.len() == 0 {
            split_on(import.module, '.').last()
        } else {
            import.name
        },
    }
}

/// Whether an annotation uses the name of an import.
pub fn annotation_uses_import(annotation: &str, import: &ImportRequirement) -> (r: bool)
    ensures
        r == has_word(annotation@, visible_name(import@)),
{
    match &import.alias {
        Some(alias) => contains_word(annotation, alias.as_str()),
        None => if import.name.as_str().is_empty() {
            let module: Vec<char> = chars_of(import.module.as_str());
            let parts: Vec<String> = pieces(&module, '.');
            let last: &String = &parts[parts.len() - 1];
            assert(last@ == split_on(module@, '.').last());
            contains_word(annotation, last.as_str())
        } else {
            contains_word(annotation, import.name.as_str())
        },
    }
}

/// The full name of what a requirement imports.
pub open spec fn full_name(requirement: ImportRequirementView) -> Seq<char> {
    if requirement.name.len() == 0 {
        requirement.module
    } else {
        requirement.module + "."@ + requirement.name
    }
}

/// An annotation with one more name written out in full. `import a.b` binds `a` to itself.
pub open spec fn write_out(out: Seq<char>, binding: ImportBindingView) -> Seq<char> {
    if binding.requirement.name.len() == 0 && split_on(binding.requirement.module, '.')[0]
        == binding.visible {
        out
    } else {
        replaced(out, binding.visible, full_name(binding.requirement))
    }
}

/// An annotation without white space, its imported names written out in full, one binding
/// after the other.
pub open spec fn canonical(annotation: Seq<char>, imports: Seq<ImportBindingView>) -> Seq<char> {
    imports.fold_left(
        squeeze(annotation),
        |out: Seq<char>, binding: ImportBindingView| write_out(out, binding),
    )
}

fn full_name_of(requirement: &ImportRequirement) -> (r: String)
    ensures
        r@ == full_name(requirement@),
{
    let mut out: String = requirement.module.clone();
    if !requirement.name.as_str().is_empty() {
        out.append(".");
        out.append(requirement.name.as_str());
    }
    out
}

/// Writes the imported names of an annotation out in full, in the order of the bindings.
pub fn canonical_annotation(annotation: &str, imports: &Vec<ImportBinding>) -> (r: String)
    ensures
        r@ == canonical(annotation@, views(imports@)),
{
    let mut out: String = string_of(&squeezed(&chars_of(annotation)));
    let ghost all = views(imports@);
    let ghost step = |out: Seq<char>, binding: ImportBindingView| write_out(out, binding);
    let ghost start = out@;
    let mut i: usize = 0;
    while i < imports.len()
        invariant
            i <= imports@.len(),
            all == views(imports@),
            step == (|out: Seq<char>, binding: ImportBindingView| write_out(out, binding)),
            out@ == all.take(i as int).fold_left(start, step),
        decreases imports@.len() - i,
    {
        let binding: &ImportBinding = &imports[i];
        let requirement: &ImportRequirement = &binding.requirement;
        assert(all.take(i + 1).drop_last() =~= all.take(i as int));
        assert(all.take(i + 1).last() == binding@);
        let module: Vec<char> = chars_of(requirement.module.as_str());
        let parts: Vec<String> = pieces(&module, '.');
        assert(parts@[0]@ == split_on(requirement.module@, '.')[0]);
        if !(requirement.name.as_str().is_empty() && parts[0] == binding.visible) {
            let full: String = full_name_of(requirement);
            out = replace_word(out.as_str(), binding.visible.as_str(), full.as_str());
        }
        i = i + 1;
    }
    assert(all.take(all.len() as int) =~= all);
    out
}

proof fn lemma_symbols_distinct(s: Seq<char>, words: Seq<(int, int)>)
    ensures
        symbols_of(s, words).no_duplicates(),
        forall|i: int|
            0 <= i < symbols_of(s, words).len() ==> !is_builtin(#[trigger] symbols_of(s, words)[i]),
    decreases words.len(),
{
    if words.len() > 0 {
        lemma_symbols_distinct(s, words.drop_last());
    }
}

/// No name is asked for twice, and none that needs no import.
pub proof fn symbols_are_distinct(annotation: Seq<char>)
    ensures
        symbols(annotation).no_duplicates(),
        forall|i: int|
            0 <= i < symbols(annotation).len() ==> !is_builtin(#[trigger] symbols(annotation)[i]),
{
    lemma_symbols_distinct(annotation, words_from(annotation, 0));
}

/// Names are made of the letters and digits of ASCII and the underscore, and start with no digit.
pub proof fn names_are_made_of_letters(c: char)
    ensures
        is_start(c) <==> ('a' <= c <= 'z' || 'A' <= c <= 'Z' || c == '_'),
        is_part(c) <==> is_start(c) || '0' <= c <= '9',
{
}

/// A word of the text: it starts with a character that can start a name, goes on as long as the
/// name does, and no other word of the same run of name characters starts before it.
pub open spec fn is_word_of(s: Seq<char>, start: int, end: int) -> bool {
    &&& 0 <= start < end <= s.len()
    &&& is_start(s[start])
    &&& forall|k: int| start < k < end ==> is_part(#[trigger] s[k])
    &&& end == s.len() || !is_part(s[end])
    &&& starts_afresh(s, start)
}

/// No name starts in the run of name characters that ends at `i`.
pub open spec fn starts_afresh(s: Seq<char>, i: int) -> bool {
    forall|k: int| 0 <= k < i && #[trigger] is_run(s, k, i) ==> !is_start(s[k])
}

/// All characters of the part are name characters.
pub open spec fn is_run(s: Seq<char>, start: int, end: int) -> bool {
    forall|k: int| start <= k < end ==> is_part(#[trigger] s[k])
}

proof fn lemma_words_from(s: Seq<char>, i: int, start: int, end: int)
    requires
        0 <= i <= s.len(),
        starts_afresh(s, i) || i == s.len() || !is_part(s[i]),
    ensures
        words_from(s, i).contains((start, end)) <==> i <= start && is_word_of(s, start, end),
    decreases s.len() - i,
{
    let words = words_from(s, i);
    if i < s.len() {
        if is_start(s[i]) {
            lemma_word_end_runs(s, i + 1);
            let e = word_end(s, i + 1);
            lemma_words_from(s, e, start, end);
            let rest = words_from(s, e);
            assert(words[0] == (i, e));
            assert forall|k: int| i < k < e implies is_part(#[trigger] s[k]) by {}
            assert(is_word_of(s, i, e));
            if words.contains((start, end)) {
                let k = words.index_of((start, end));
                if k > 0 {
                    assert(rest[k - 1] == (start, end));
                }
            }
            if rest.contains((start, end)) {
                let k = rest.index_of((start, end));
                assert(words[k + 1] == (start, end));
            }
            if i <= start && is_word_of(s, start, end) && start < e {
                if i < start {
                    assert(is_run(s, i, start));
                }
                if end < e {
                    assert(is_part(s[end]));
                } else if e < end {
                    assert(is_part(s[e]));
                }
                assert(words.contains((i, e)));
            }
        } else {
            assert(starts_afresh(s, i + 1)) by {
                assert forall|k: int| 0 <= k < i + 1 && #[trigger] is_run(
                    s,
                    k,
                    i + 1,
                ) implies !is_start(s[k]) by {
                    assert(is_part(s[i]));
                    assert(is_run(s, k, i));
                }
            }
            lemma_words_from(s, i + 1, start, end);
        }
    }
}

proof fn lemma_symbols_of(s: Seq<char>, words: Seq<(int, int)>, name: Seq<char>)
    ensures
        symbols_of(s, words).contains(name) <==> exists|k: int|
            0 <= k < words.len() && s.subrange((#[trigger] words[k]).0, words[k].1) == name
                && !follows_dot(s, words[k].0) && !is_builtin(name),
    decreases words.len(),
{
    if words.len() > 0 {
        let fewer = words.drop_last();
        let n = words.len() - 1;
        lemma_symbols_of(s, fewer, name);
        let before = symbols_of(s, fewer);
        let all = symbols_of(s, words);
        if before.contains(name) {
            let i = before.index_of(name);
            assert(all[i] == name);
            let k = choose|k: int|
                0 <= k < fewer.len() && s.subrange((#[trigger] fewer[k]).0, fewer[k].1) == name
                    && !follows_dot(s, fewer[k].0) && !is_builtin(name);
            assert(words[k] == fewer[k]);
        }
        if all.contains(name) && !before.contains(name) {
            let i = all.index_of(name);
            if i < before.len() {
                assert(before[i] == name);
            }
            assert(s.subrange(words[n].0, words[n].1) == name);
        }
        if exists|k: int|
            0 <= k < words.len() && s.subrange((#[trigger] words[k]).0, words[k].1) == name
                && !follows_dot(s, words[k].0) && !is_builtin(name) {
            let k = choose|k: int|
                0 <= k < words.len() && s.subrange((#[trigger] words[k]).0, words[k].1) == name
                    && !follows_dot(s, words[k].0) && !is_builtin(name);
            if k < n {
                assert(fewer[k] == words[k]);
            } else if !before.contains(name) {
                assert(all.last() == name);
            }
        }
    }
}

/// What stands before the place, white space apart, is a dot.
pub open spec fn is_behind_dot(s: Seq<char>, i: int) -> bool {
    exists|k: int|
        0 <= k < i && #[trigger] s[k] == '.' && forall|m: int|
            k < m < i ==> is_white(#[trigger] s[m])
}

proof fn lemma_follows_dot(s: Seq<char>, i: int)
    requires
        0 <= i <= s.len(),
    ensures
        follows_dot(s, i) <==> is_behind_dot(s, i),
    decreases i,
{
    let before = s.take(i);
    if i > 0 {
        assert(before.last() == s[i - 1]);
        if is_white(s[i - 1]) {
            assert(before.drop_last() =~= s.take(i - 1));
            lemma_follows_dot(s, i - 1);
            if is_behind_dot(s, i - 1) {
                let k = choose|k: int|
                    0 <= k < i - 1 && #[trigger] s[k] == '.' && forall|m: int|
                        k < m < i - 1 ==> is_white(#[trigger] s[m]);
                assert(s[k] == '.');
            }
            if is_behind_dot(s, i) {
                let k = choose|k: int|
                    0 <= k < i && #[trigger] s[k] == '.' && forall|m: int|
                        k < m < i ==> is_white(#[trigger] s[m]);
                assert(k < i - 1);
                assert(s[k] == '.');
            }
        } else {
            if s[i - 1] == '.' {
                assert(is_behind_dot(s, i));
            }
        }
    } else {
        assert(before =~= Seq::<char>::empty());
    }
}

/// The names that an annotation refers to are exactly its words that stand behind no dot and are
/// none of the ten that need no import.
pub proof fn symbols_are_the_words(annotation: Seq<char>, name: Seq<char>)
    ensures
        symbols(annotation).contains(name) <==> exists|start: int, end: int|
            #[trigger] is_word_of(annotation, start, end) && annotation.subrange(start, end) == name
                && !is_behind_dot(annotation, start) && !needs_no_import().contains(name),
{
    let s = annotation;
    let words = words_from(s, 0);
    lemma_symbols_of(s, words, name);
    lemma_builtins(name);
    assert forall|start: int, end: int| is_word_of(s, start, end) <==> words.contains(
        (start, end),
    ) by {
        assert(starts_afresh(s, 0));
        lemma_words_from(s, 0, start, end);
    }
    if symbols(annotation).contains(name) {
        let k = choose|k: int|
            0 <= k < words.len() && s.subrange((#[trigger] words[k]).0, words[k].1) == name
                && !follows_dot(s, words[k].0) && !is_builtin(name);
        let (start, end) = words[k];
        assert(words.contains((start, end)));
        assert(is_word_of(s, start, end));
        lemma_follows_dot(s, start);
    }
    if exists|start: int, end: int|
        #[trigger] is_word_of(s, start, end) && s.subrange(start, end) == name && !is_behind_dot(
            s,
            start,
        ) && !needs_no_import().contains(name) {
        let (start, end) = choose|start: int, end: int|
            #[trigger] is_word_of(s, start, end) && s.subrange(start, end) == name
                && !is_behind_dot(s, start) && !needs_no_import().contains(name);
        lemma_follows_dot(s, start);
        assert(words.contains((start, end)));
        let k = words.index_of((start, end));
        assert(words[k] == (start, end));
    }
}

/// The names that need no import.
pub open spec fn needs_no_import() -> Set<Seq<char>> {
    set![
        "None"@,
        "bool"@,
        "bytes"@,
        "dict"@,
        "float"@,
        "int"@,
        "list"@,
        "set"@,
        "str"@,
        "tuple"@,
    ]
}

proof fn lemma_builtins(name: Seq<char>)
    ensures
        is_builtin(name) <==> needs_no_import().contains(name),
{
}

/// Replacing goes through a text part by part, where no name runs from one part into the next.
pub proof fn parts_are_replaced_apart(
    a: Seq<char>,
    b: Seq<char>,
    word: Seq<char>,
    replacement: Seq<char>,
)
    requires
        is_name(word),
        a.len() > 0 && b.len() > 0 ==> !is_part(a.last()) || !is_part(b[0]),
    ensures
        replaced(a + b, word, replacement) == replaced(a, word, replacement) + replaced(
            b,
            word,
            replacement,
        ),
{
    lemma_replaced_parts(a, b, word, replacement, 0);
}

proof fn lemma_replaced_tail(
    a: Seq<char>,
    b: Seq<char>,
    word: Seq<char>,
    replacement: Seq<char>,
    i: int,
)
    requires
        is_name(word),
        are_apart(a, b),
        0 <= i <= b.len(),
    ensures
        replaced_from(a + b, word, replacement, a.len() + i) == replaced_from(
            b,
            word,
            replacement,
            i,
        ),
    decreases b.len() - i,
{
    let s = a + b;
    let n = word.len() as int;
    if i < b.len() {
        assert(s[a.len() + i] == b[i]);
        assert(word_at(s, word, a.len() + i) == word_at(b, word, i)) by {
            if i + n <= b.len() {
                assert(s.subrange(a.len() + i, a.len() + i + n) =~= b.subrange(i, i + n));
            }
            if i == 0 && a.len() > 0 {
                assert(s[a.len() - 1] == a.last());
                if is_start(b[0]) {
                    assert(!is_part(a.last()));
                }
            } else if i > 0 {
                assert(s[a.len() + i - 1] == b[i - 1]);
            }
            if i + n < b.len() {
                assert(s[a.len() + i + n] == b[i + n]);
            }
        }
        if word_at(b, word, i) {
            lemma_replaced_tail(a, b, word, replacement, i + n);
        } else {
            lemma_replaced_tail(a, b, word, replacement, i + 1);
        }
    }
}

proof fn lemma_replaced_parts(
    a: Seq<char>,
    b: Seq<char>,
    word: Seq<char>,
    replacement: Seq<char>,
    i: int,
)
    requires
        is_name(word),
        are_apart(a, b),
        0 <= i <= a.len(),
    ensures
        replaced_from(a + b, word, replacement, i) == replaced_from(a, word, replacement, i)
            + replaced_from(b, word, replacement, 0),
    decreases a.len() - i,
{
    let s = a + b;
    let n = word.len() as int;
    if i == a.len() {
        lemma_replaced_tail(a, b, word, replacement, 0);
        assert(replaced_from(s, word, replacement, i) =~= replaced_from(a, word, replacement, i)
            + replaced_from(b, word, replacement, 0));
    } else {
        assert(s[i] == a[i]);
        assert(word_at(s, word, i) == word_at(a, word, i)) by {
            if i > 0 {
                assert(s[i - 1] == a[i - 1]);
            }
            if i + n <= a.len() {
                assert(s.subrange(i, i + n) =~= a.subrange(i, i + n));
                if i + n < a.len() {
                    assert(s[i + n] == a[i + n]);
                } else if b.len() > 0 && occurs_at(a, word, i) {
                    assert(s[i + n] == b[0]);
                    assert(a.subrange(i, i + n)[n - 1] == word[n - 1]);
                    assert(is_part(word[n - 1]));
                    assert(a.last() == word[n - 1]);
                }
            } else if occurs_at(s, word, i) {
                let k = a.len() - i;
                assert(s.subrange(i, i + n)[k] == word[k]);
                assert(s.subrange(i, i + n)[k - 1] == word[k - 1]);
                assert(is_part(word[k]) && is_part(word[k - 1]));
                assert(s[a.len() as int] == b[0]);
                assert(s[a.len() - 1] == a.last());
            }
        }
        if word_at(a, word, i) {
            lemma_replaced_parts(a, b, word, replacement, i + n);
        } else {
            lemma_replaced_parts(a, b, word, replacement, i + 1);
        }
        assert(replaced_from(s, word, replacement, i) =~= replaced_from(a, word, replacement, i)
            + replaced_from(b, word, replacement, 0));
    }
}

/// A word that stands alone is replaced.
pub proof fn lone_word_is_replaced(word: Seq<char>, replacement: Seq<char>)
    requires
        is_name(word),
        is_start(word[0]),
    ensures
        replaced(word, word, replacement) == replacement,
{
    assert(word.subrange(0, word.len() as int) =~= word);
    assert(word_at(word, word, 0));
    assert(replaced_from(word, word, replacement, word.len() as int) =~= Seq::<char>::empty());
    assert(replaced(word, word, replacement) =~= replacement);
}

/// An annotation none of whose names is imported is written out as it is, without white space.
pub proof fn names_that_are_not_imported_stay(
    annotation: Seq<char>,
    imports: Seq<ImportBindingView>,
)
    requires
        is_ascii(annotation),
        forall|k: int|
            0 <= k < imports.len() ==> !has_word(
                squeeze(annotation),
                (#[trigger] imports[k]).visible,
            ),
    ensures
        canonical(annotation, imports) == squeeze(annotation),
    decreases imports.len(),
{
    let step = |out: Seq<char>, binding: ImportBindingView| write_out(out, binding);
    lemma_squeeze_ascii(annotation);
    if imports.len() > 0 {
        let fewer = imports.drop_last();
        assert forall|k: int| 0 <= k < fewer.len() implies !has_word(
            squeeze(annotation),
            (#[trigger] fewer[k]).visible,
        ) by {
            assert(fewer[k] == imports[k]);
        }
        names_that_are_not_imported_stay(annotation, fewer);
        let last = imports[imports.len() - 1];
        replacing_keeps_the_rest(squeeze(annotation), last.visible, full_name(last.requirement));
        assert(imports.fold_left(squeeze(annotation), step) == step(
            fewer.fold_left(squeeze(annotation), step),
            imports.last(),
        ));
    }
}

proof fn lemma_squeeze_ascii(s: Seq<char>)
    requires
        is_ascii(s),
    ensures
        is_ascii(squeeze(s)),
{
    let keep = |c: char| !is_white(c);
    assert forall|i: int| 0 <= i < squeeze(s).len() implies #[trigger] squeeze(s)[i] as u32
        <= 0x7f by {
        assert(s.filter(keep).contains(squeeze(s)[i]));
        s.lemma_filter_contains_rev(keep, squeeze(s)[i]);
        let k = s.index_of(squeeze(s)[i]);
        assert(s[k] as u32 <= 0x7f);
    }
}

/// An imported name is written out as the module and the name that it stands for, with a dot
/// between them; a module under its own first part stays, and under another name is written out.
/// Each import is written out in what the imports before it gave.
pub proof fn imports_are_written_out_in_turn(
    annotation: Seq<char>,
    imports: Seq<ImportBindingView>,
    visible: Seq<char>,
    r: ImportRequirementView,
)
    ensures
        canonical(annotation, Seq::empty()) == squeeze(annotation),
        r.name.len() > 0 ==> canonical(
            annotation,
            imports.push(ImportBindingView { visible, requirement: r }),
        ) == replaced(canonical(annotation, imports), visible, r.module + seq!['.'] + r.name),
        r.name.len() == 0 && split_on(r.module, '.')[0] != visible ==> canonical(
            annotation,
            imports.push(ImportBindingView { visible, requirement: r }),
        ) == replaced(canonical(annotation, imports), visible, r.module),
        r.name.len() == 0 && split_on(r.module, '.')[0] == visible ==> canonical(
            annotation,
            imports.push(ImportBindingView { visible, requirement: r }),
        ) == canonical(annotation, imports),
{
    let step = |out: Seq<char>, binding: ImportBindingView| write_out(out, binding);
    let more = imports.push(ImportBindingView { visible, requirement: r });
    assert(more.drop_last() =~= imports);
    reveal_strlit(".");
    assert("."@ =~= seq!['.']);
    assert(more.fold_left(squeeze(annotation), step) == step(
        imports.fold_left(squeeze(annotation), step),
        more.last(),
    ));
}

proof fn lemma_last_piece(s: Seq<char>, sep: char, from: int, n: int)
    requires
        0 <= from <= n <= s.len(),
        from == 0 || s[from - 1] == sep,
        forall|i: int| from <= i < n ==> #[trigger] s[i] != sep,
    ensures
        split_first(s, separator(s, sep), n).last() == s.subrange(from, n),
    decreases n,
{
    if n == from {
        assert(s.subrange(from, n) =~= Seq::<char>::empty());
    } else {
        lemma_last_piece(s, sep, from, n - 1);
        assert(s[n - 1] != sep);
        assert(s.subrange(from, n) =~= s.subrange(from, n - 1).push(s[n - 1]));
    }
}

proof fn lemma_first_piece(s: Seq<char>, cut: spec_fn(int) -> bool, end: int, n: int)
    requires
        0 <= end <= s.len(),
        0 <= n <= s.len(),
        end < n ==> cut(end),
        forall|i: int| 0 <= i < end ==> !#[trigger] cut(i),
    ensures
        split_first(s, cut, n).len() >= 1,
        split_first(s, cut, n)[0] == (if n <= end {
            s.take(n)
        } else {
            s.take(end)
        }),
        n <= end ==> split_first(s, cut, n).len() == 1,
        n > end ==> split_first(s, cut, n).len() >= 2,
    decreases n,
{
    if n == 0 {
        assert(s.take(0) =~= Seq::<char>::empty());
    } else {
        lemma_first_piece(s, cut, end, n - 1);
        if n <= end {
            assert(!cut(n - 1));
            assert(s.take(n) =~= s.take(n - 1).push(s[n - 1]));
        }
    }
}

/// The wrappers around the type of the value that a fixture yields.
pub open spec fn wrappers() -> Set<Seq<char>> {
    set!["Generator"@, "Iterator"@, "AsyncGenerator"@, "AsyncIterator"@]
}

/// The name, or its last part where it is dotted, is one of the wrappers.
pub open spec fn ends_in_wrapper(head: Seq<char>) -> bool {
    exists|w: Seq<char>, n: int|
        #![trigger wrappers().contains(w), head.skip(n)]
        wrappers().contains(w) && 0 <= n <= head.len() && head.skip(n) == w && (n == 0 || head[n
            - 1] == '.')
}

proof fn lemma_wrappers_have_no_dot(w: Seq<char>)
    requires
        wrappers().contains(w),
    ensures
        !w.contains('.'),
{
    reveal_strlit("Generator");
    reveal_strlit("Iterator");
    reveal_strlit("AsyncGenerator");
    reveal_strlit("AsyncIterator");
    if w == "Generator"@ {
        assert(w =~= seq!['G', 'e', 'n', 'e', 'r', 'a', 't', 'o', 'r']);
    } else if w == "Iterator"@ {
        assert(w =~= seq!['I', 't', 'e', 'r', 'a', 't', 'o', 'r']);
    } else if w == "AsyncGenerator"@ {
        assert(w =~= seq!['A', 's', 'y', 'n', 'c', 'G', 'e', 'n', 'e', 'r', 'a', 't', 'o', 'r']);
    } else {
        assert(w =~= seq!['A', 's', 'y', 'n', 'c', 'I', 't', 'e', 'r', 'a', 't', 'o', 'r']);
    }
}

proof fn lemma_wrapper(head: Seq<char>)
    ensures
        is_wrapper(split_on(head, '.').last()) <==> ends_in_wrapper(head),
{
    let last = split_on(head, '.').last();
    if ends_in_wrapper(head) {
        let (w, n) = choose|w: Seq<char>, n: int|
            #![trigger wrappers().contains(w), head.skip(n)]
            wrappers().contains(w) && 0 <= n <= head.len() && head.skip(n) == w && (n == 0 || head[n
                - 1] == '.');
        lemma_wrappers_have_no_dot(w);
        assert forall|i: int| n <= i < head.len() implies #[trigger] head[i] != '.' by {
            assert(head.skip(n)[i - n] == head[i]);
            assert(w[i - n] != '.');
        }
        lemma_last_piece(head, '.', n, head.len() as int);
        assert(head.subrange(n, head.len() as int) =~= head.skip(n));
        assert(last == w);
    }
    if is_wrapper(last) {
        let n = lemma_last_dot(head, head.len() as int);
        lemma_last_piece(head, '.', n, head.len() as int);
        assert(head.subrange(n, head.len() as int) =~= head.skip(n));
        assert(wrappers().contains(last));
    }
}

proof fn lemma_last_dot(s: Seq<char>, n: int) -> (from: int)
    requires
        0 <= n <= s.len(),
    ensures
        0 <= from <= n,
        from == 0 || s[from - 1] == '.',
        forall|i: int| from <= i < n ==> #[trigger] s[i] != '.',
    decreases n,
{
    if n == 0 || s[n - 1] == '.' {
        n
    } else {
        lemma_last_dot(s, n - 1)
    }
}

proof fn lemma_depth_of_part(s: Seq<char>, part: Seq<char>, n: int)
    requires
        0 <= n <= part.len() <= s.len(),
        forall|i: int| 0 <= i < part.len() ==> s[i] == #[trigger] part[i],
    ensures
        depth(s, n) == depth(part, n),
    decreases n,
{
    if n > 0 {
        lemma_depth_of_part(s, part, n - 1);
        assert(s[n - 1] == part[n - 1]);
    }
}

/// The text is one argument: no comma stands in it outside brackets.
pub open spec fn is_one_argument(s: Seq<char>) -> bool {
    forall|i: int| 0 <= i < s.len() && #[trigger] s[i] == ',' ==> depth(s, i) != 0
}

proof fn lemma_trim_of_squeezed(s: Seq<char>)
    requires
        forall|i: int| 0 <= i < s.len() ==> !is_white(#[trigger] s[i]),
    ensures
        trim(s) == s,
{
}

proof fn lemma_subscript_parts(s: Seq<char>, head: Seq<char>, inner: Seq<char>)
    requires
        s == head + seq!['['] + inner + seq![']'],
    ensures
        s.len() == head.len() + inner.len() + 2,
        s[head.len() as int] == '[',
        s[s.len() - 1] == ']',
        s.take(head.len() as int) == head,
        s.subrange((head.len() + 1) as int, s.len() - 1) == inner,
{
    assert(s.take(head.len() as int) =~= head);
    assert(s.subrange((head.len() + 1) as int, s.len() - 1) =~= inner);
}

proof fn lemma_open_bracket(s: Seq<char>, open: int)
    requires
        0 <= open < s.len(),
        s[open] == '[',
        !s.take(open).contains('['),
    ensures
        find(s, "["@) == Some(open),
{
    reveal_strlit("[");
    assert("["@ =~= seq!['[']);
    lemma_find(s, "["@);
    lemma_occurs_one(s, '[', open);
    assert(occurs_at(s, "["@, open));
    let found = find(s, "["@)->0;
    lemma_occurs_one(s, '[', found);
    if found < open {
        assert(s.take(open)[found] == '[');
    }
}

proof fn lemma_close_bracket(s: Seq<char>)
    requires
        s.len() > 0,
        s.last() == ']',
    ensures
        rfind(s, "]"@) == Some(s.len() - 1),
{
    reveal_strlit("]");
    assert("]"@ =~= seq![']']);
    last_occurrence_is_found(s, "]"@);
    lemma_occurs_one(s, ']', s.len() - 1);
    assert(occurs_at(s, "]"@, s.len() - 1));
    lemma_occurs_one(s, ']', rfind(s, "]"@)->0);
}

proof fn lemma_first_argument(inner: Seq<char>, first: Seq<char>)
    requires
        is_one_argument(first),
        first.len() <= inner.len(),
        inner.take(first.len() as int) == first,
        first.len() < inner.len() ==> inner[first.len() as int] == ',' && depth(
            first,
            first.len() as int,
        ) == 0,
    ensures
        top_level_args(inner).len() >= 1,
        top_level_args(inner)[0] == trim(first),
{
    let cut = top_level_comma(inner);
    let end = first.len() as int;
    assert forall|i: int| 0 <= i < first.len() implies inner[i] == #[trigger] first[i] by {
        assert(inner.take(end)[i] == inner[i]);
    }
    assert forall|i: int| 0 <= i < end implies !#[trigger] cut(i) by {
        lemma_depth_of_part(inner, first, i);
        assert(inner[i] == first[i]);
    }
    if first.len() < inner.len() {
        lemma_depth_of_part(inner, first, end);
    }
    lemma_first_piece(inner, cut, end, inner.len() as int);
    assert(inner.take(inner.len() as int) =~= inner);
}

/// Of a generator or an iterator, under whatever module, the first argument is the type of the
/// value, whether or not others follow it.
pub proof fn generators_yield_their_first_argument(
    annotation: Seq<char>,
    head: Seq<char>,
    first: Seq<char>,
    inner: Seq<char>,
)
    requires
        squeeze(annotation) == head + seq!['['] + inner + seq![']'],
        ends_in_wrapper(head),
        !head.contains('['),
        first.len() > 0,
        is_one_argument(first),
        first.len() <= inner.len(),
        inner.take(first.len() as int) == first,
        first.len() < inner.len() ==> inner[first.len() as int] == ',' && depth(
            first,
            first.len() as int,
        ) == 0,
    ensures
        yielded(annotation) == Some(first),
{
    let s = squeeze(annotation);
    let keep = |c: char| !is_white(c);
    lemma_subscript_parts(s, head, inner);
    lemma_open_bracket(s, head.len() as int);
    lemma_close_bracket(s);
    lemma_wrapper(head);
    lemma_first_argument(inner, first);
    assert forall|i: int| 0 <= i < first.len() implies !is_white(#[trigger] first[i]) by {
        let at = (head.len() + 1 + i) as int;
        assert(inner.take(first.len() as int)[i] == inner[i]);
        assert(s.subrange((head.len() + 1) as int, s.len() - 1)[i] == s[at]);
        annotation.lemma_filter_pred(keep, at);
    }
    lemma_trim_of_squeezed(first);
}

/// Whatever has no brackets, or has them behind another name, yields nothing.
pub proof fn other_annotations_yield_nothing(annotation: Seq<char>)
    requires
        forall|k: int|
            0 <= k < squeeze(annotation).len() && #[trigger] squeeze(annotation)[k] == '[' && !(
            squeeze(annotation).take(k).contains('[')) ==> !ends_in_wrapper(
                squeeze(annotation).take(k),
            ),
    ensures
        yielded(annotation) is None,
{
    let s = squeeze(annotation);
    reveal_strlit("[");
    assert("["@ =~= seq!['[']);
    lemma_find(s, "["@);
    if find(s, "["@) is Some {
        let open = find(s, "["@)->0;
        lemma_occurs_one(s, '[', open);
        assert(s[open] == '[');
        let head = s.take(open);
        if head.contains('[') {
            let k = head.index_of('[');
            lemma_occurs_one(s, '[', k);
            assert(occurs_at(s, "["@, k));
        }
        lemma_wrapper(head);
    }
}

/// A name on which nothing is put is visible under itself, a module under its last part, and each
/// under its alias where it has one.
pub proof fn imports_are_visible_under_their_names(
    module: Seq<char>,
    name: Seq<char>,
    alias: Seq<char>,
)
    ensures
        visible_name(ImportRequirementView { module, name, alias: Some(alias) }) == alias,
        name.len() > 0 ==> visible_name(ImportRequirementView { module, name, alias: None })
            == name,
        visible_name(ImportRequirementView { module, name: Seq::empty(), alias: None })
            == split_on(module, '.').last(),
{
}

proof fn lemma_depth_behind(a: Seq<char>, b: Seq<char>, n: int)
    requires
        0 <= n <= b.len(),
        depth(a, a.len() as int) == 0,
    ensures
        depth(a + seq![','] + b, (a.len() + 1 + n) as int) == depth(b, n),
    decreases n,
{
    let s = a + seq![','] + b;
    if n == 0 {
        assert forall|i: int| 0 <= i < a.len() implies s[i] == #[trigger] a[i] by {}
        lemma_depth_of_part(s, a, a.len() as int);
        assert(s[a.len() as int] == ',');
        assert(depth(s, (a.len() + 1) as int) == depth(s, a.len() as int));
    } else {
        lemma_depth_behind(a, b, n - 1);
        assert(s[a.len() + n] == b[n - 1]);
    }
}

proof fn lemma_arguments_behind(a: Seq<char>, b: Seq<char>, n: int)
    requires
        0 <= n <= b.len(),
        depth(a, a.len() as int) == 0,
    ensures
        split_first(
            a + seq![','] + b,
            top_level_comma(a + seq![','] + b),
            (a.len() + 1 + n) as int,
        ) == split_where(a, top_level_comma(a)) + split_first(b, top_level_comma(b), n),
    decreases n,
{
    let s = a + seq![','] + b;
    let head = split_where(a, top_level_comma(a));
    let whole = split_first(s, top_level_comma(s), (a.len() + 1 + n) as int);
    let tail = split_first(b, top_level_comma(b), n);
    if n == 0 {
        assert forall|i: int| 0 <= i < a.len() implies s[i] == #[trigger] a[i] by {}
        lemma_arguments_before(s, a, a.len() as int);
        lemma_depth_of_part(s, a, a.len() as int);
        assert(s[a.len() as int] == ',');
        assert(whole =~= head + tail);
    } else {
        lemma_arguments_behind(a, b, n - 1);
        lemma_depth_behind(a, b, n - 1);
        lemma_split_first_nonempty(b, top_level_comma(b), n - 1);
        assert(s[a.len() + n] == b[n - 1]);
        assert(whole =~= head + tail);
    }
}

proof fn lemma_arguments_before(s: Seq<char>, a: Seq<char>, n: int)
    requires
        0 <= n <= a.len() <= s.len(),
        forall|i: int| 0 <= i < a.len() ==> s[i] == #[trigger] a[i],
    ensures
        split_first(s, top_level_comma(s), n) == split_first(a, top_level_comma(a), n),
    decreases n,
{
    if n > 0 {
        lemma_arguments_before(s, a, n - 1);
        lemma_depth_of_part(s, a, n - 1);
        assert(s[n - 1] == a[n - 1]);
    }
}

/// A comma outside brackets separates arguments: those before it come first, then those behind it.
/// A text without such a comma is one argument, without the white space around it.
pub proof fn arguments_are_split_at_commas(a: Seq<char>, b: Seq<char>)
    ensures
        depth(a, a.len() as int) == 0 ==> top_level_args(a + seq![','] + b) == top_level_args(a)
            + top_level_args(b),
        is_one_argument(a) ==> top_level_args(a) == seq![trim(a)],
{
    let tidy = |piece: Seq<char>| trim(piece);
    if depth(a, a.len() as int) == 0 {
        let s = a + seq![','] + b;
        lemma_arguments_behind(a, b, b.len() as int);
        assert(s.len() == a.len() + 1 + b.len());
        assert(top_level_args(s) =~= top_level_args(a) + top_level_args(b));
    }
    if is_one_argument(a) {
        let cut = top_level_comma(a);
        assert forall|i: int| 0 <= i < a.len() implies !#[trigger] cut(i) by {
            assert(a[i] == ',' ==> depth(a, i) != 0);
        }
        lemma_first_piece(a, cut, a.len() as int, a.len() as int);
        assert(a.take(a.len() as int) =~= a);
        assert(top_level_args(a) =~= seq![trim(a)]);
    }
}

/// How deep in brackets a text ends adds up: of the round, the square and the curly ones each that
/// opens counts one up, each that closes one down, and nothing else counts.
pub proof fn brackets_add_up(a: Seq<char>, c: char)
    ensures
        depth(a.push(c), (a.len() + 1) as int) == depth(a, a.len() as int) + (if c == '(' || c
            == '[' || c == '{' {
            1int
        } else if c == ')' || c == ']' || c == '}' {
            -1int
        } else {
            0int
        }),
        depth(Seq::empty(), 0) == 0,
{
    let s = a.push(c);
    assert forall|i: int| 0 <= i < a.len() implies s[i] == #[trigger] a[i] by {}
    lemma_depth_of_part(s, a, a.len() as int);
}

/// A word stands in a text exactly if it stands there with no name character before or behind it,
/// and starts as a name does.
pub proof fn words_stand_by_themselves(
    head: Seq<char>,
    word: Seq<char>,
    tail: Seq<char>,
)
    requires
        is_name(word),
        is_start(word[0]),
    ensures
        (head.len() == 0 || !is_part(head.last())) && (tail.len() == 0 || !is_part(tail[0]))
            ==> has_word(head + word + tail, word),
        !contains(head, word) ==> !has_word(head, word),
{
    let s = head + word + tail;
    let at = head.len() as int;
    if (head.len() == 0 || !is_part(head.last())) && (tail.len() == 0 || !is_part(tail[0])) {
        assert(s.subrange(at, at + word.len()) =~= word);
        assert(s[at] == word[0]);
        if at > 0 {
            assert(s[at - 1] == head.last());
        }
        if at + word.len() < s.len() {
            assert(s[at + word.len()] == tail[0]);
        }
        assert(word_at(s, word, at));
    }
    if has_word(head, word) {
        let i = choose|i: int| word_at(head, word, i);
        assert(occurs_at(head, word, i));
    }
}

/// A character outside a name is carried over as its bytes are, one character for each.
pub proof fn other_characters_are_carried_over(
    c: char,
    word: Seq<char>,
    replacement: Seq<char>,
)
    requires
        is_name(word),
        !is_part(c),
    ensures
        replaced(seq![c], word, replacement) == encode_utf8(seq![c]).map_values(|b: u8| b as char),
{
    let one = seq![c];
    lemma_no_words(one, word);
    assert(!word_at(one, word, 0));
    assert(replaced_from(one, word, replacement, 1) =~= Seq::<char>::empty());
    assert(replaced(one, word, replacement) =~= bytes_as_chars(c));
}

/// What follows the last closing bracket does not count, and an empty first argument, or brackets
/// that do not close, yield nothing.
pub proof fn what_follows_the_brackets_does_not_count(
    annotation: Seq<char>,
    head: Seq<char>,
    inner: Seq<char>,
    rest: Seq<char>,
)
    requires
        !head.contains('['),
        ends_in_wrapper(head),
        !rest.contains(']'),
    ensures
        squeeze(annotation) == head + seq!['['] + inner + seq![']'] + rest ==> yielded(annotation)
            == (if top_level_args(inner)[0].len() > 0 {
            Some(top_level_args(inner)[0])
        } else {
            None
        }),
        squeeze(annotation) == head + seq!['['] + rest && !head.contains(']') ==> yielded(
            annotation,
        ) is None,
{
    let s = squeeze(annotation);
    reveal_strlit("]");
    assert("]"@ =~= seq![']']);
    last_occurrence_is_found(s, "]"@);
    lemma_wrapper(head);
    if s == head + seq!['['] + inner + seq![']'] + rest {
        lemma_brackets_and_rest(s, head, inner, rest);
    }
    if s == head + seq!['['] + rest && !head.contains(']') {
        if rfind(s, "]"@) is Some {
            let close = rfind(s, "]"@)->0;
            lemma_occurs_one(s, ']', close);
            if close < head.len() {
                assert(head[close] == ']');
            } else if close > head.len() {
                assert(rest[close - head.len() - 1] == ']');
            }
        }
    }
}

proof fn lemma_brackets_and_rest(
    s: Seq<char>,
    head: Seq<char>,
    inner: Seq<char>,
    rest: Seq<char>,
)
    requires
        s == head + seq!['['] + inner + seq![']'] + rest,
        !head.contains('['),
        !rest.contains(']'),
    ensures
        find(s, "["@) == Some(head.len() as int),
        rfind(s, "]"@) == Some((head.len() + 1 + inner.len()) as int),
        s.take(head.len() as int) == head,
        s.subrange((head.len() + 1) as int, (head.len() + 1 + inner.len()) as int) == inner,
{
    let open = head.len() as int;
    let close = (head.len() + 1 + inner.len()) as int;
    assert(s.take(open) =~= head);
    assert(s.subrange(open + 1, close) =~= inner);
    assert(s[open] == '[');
    lemma_open_bracket(s, open);
    assert(s[close] == ']');
    assert(s.skip(close + 1) =~= rest);
    lemma_last_close(s, close, rest);
}

proof fn lemma_last_close(s: Seq<char>, close: int, rest: Seq<char>)
    requires
        0 <= close < s.len(),
        s[close] == ']',
        s.skip(close + 1) == rest,
        !rest.contains(']'),
    ensures
        rfind(s, "]"@) == Some(close),
{
    reveal_strlit("]");
    assert("]"@ =~= seq![']']);
    last_occurrence_is_found(s, "]"@);
    lemma_occurs_one(s, ']', close);
    assert(occurs_at(s, "]"@, close));
    let found = rfind(s, "]"@)->0;
    lemma_occurs_one(s, ']', found);
    if found > close {
        assert(rest[found - close - 1] == ']');
    }
}

/// A word stands in a text only between characters that are none of a name, or at its ends.
pub proof fn words_stand_between_other_characters(s: Seq<char>, word: Seq<char>)
    requires
        has_word(s, word),
    ensures
        exists|i: int|
            #[trigger] occurs_at(s, word, i) && i < s.len() && is_start(s[i]) && (i == 0
                || !is_part(s[i - 1])) && (i + word.len() == s.len() || !is_part(
                s[i + word.len()],
            )),
{
    let i = choose|i: int| word_at(s, word, i);
    assert(occurs_at(s, word, i));
}

}
