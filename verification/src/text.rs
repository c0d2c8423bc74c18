//! Text as a sequence of characters: byte offsets, searching, trimming, splitting and ordering.
use vstd::prelude::*;

verus! {

/// `String::push` appends one character.
pub assume_specification[ String::push ](s: &mut String, c: char)
    ensures
        final(s)@ == old(s)@.push(c),
;

/// The views of the items of a sequence.
pub open spec fn views<T: View>(s: Seq<T>) -> Seq<T::V> {
    Seq::new(s.len(), |i: int| s[i]@)
}

/// The view of an optional item.
pub open spec fn option_view<T: View>(o: Option<T>) -> Option<T::V> {
    match o {
        Some(x) => Some(x@),
        None => None,
    }
}

/// The view of a longer list ends with the view of its last item.
pub proof fn lemma_views_push<T: View>(s: Seq<T>, x: T)
    ensures
        views(s.push(x)) == views(s).push(x@),
{
    assert(views(s.push(x)) =~= views(s).push(x@));
}

/// The characters of a text, as a vector.
pub fn chars_of(text: &str) -> (r: Vec<char>)
    ensures
        r@ == text@,
{
    let mut out: Vec<char> = Vec::new();
    for c in it: text.chars()
        invariant
            it.seq() == text@,
            out@ == text@.take(it.index() as int),
    {
        out.push(c);
    }
    assert(text@.take(text@.len() as int) =~= text@);
    out
}

/// The text made of the characters from `start` up to `end`.
pub fn substring(chars: &Vec<char>, start: usize, end: usize) -> (r: String)
    requires
        start <= end <= chars@.len(),
    ensures
        r@ == chars@.subrange(start as int, end as int),
{
    let mut out: String = String::new();
    let mut i: usize = start;
    while i < end
        invariant
            start <= i <= end <= chars@.len(),
            out@ == chars@.subrange(start as int, i as int),
        decreases end - i,
    {
        out.push(chars[i]);
        i = i + 1;
    }
    out
}

/// The text made of all the characters.
pub fn string_of(chars: &Vec<char>) -> (r: String)
    ensures
        r@ == chars@,
{
    let r: String = substring(chars, 0, chars.len());
    assert(chars@.subrange(0, chars@.len() as int) =~= chars@);
    r
}

/// Whether a string holds exactly the characters of a literal.
pub fn is_text(s: &String, literal: &str) -> (r: bool)
    ensures
        r == (s@ == literal@),
{
    let other: String = literal.to_owned();
    *s == other
}

/// Whether two texts are the same.
pub fn same_chars(a: &Vec<char>, b: &Vec<char>) -> (r: bool)
    ensures
        r == (a@ == b@),
{
    if a.len() != b.len() {
        return false;
    }
    let mut i: usize = 0;
    while i < a.len()
        invariant
            i <= a@.len(),
            a@.len() == b@.len(),
            forall|j: int| 0 <= j < i ==> a@[j] == b@[j],
        decreases a@.len() - i,
    {
        if a[i] != b[i] {
            return false;
        }
        i = i + 1;
    }
    assert(a@ =~= b@);
    true
}

/// The number of bytes that UTF-8 gives a character.
pub open spec fn utf8_width(c: char) -> nat {
    if c as u32 <= 0x7f {
        1
    } else if c as u32 <= 0x7ff {
        2
    } else if c as u32 <= 0xffff {
        3
    } else {
        4
    }
}

/// The number of code units that UTF-16 gives a character.
pub open spec fn utf16_width(c: char) -> nat {
    if c as u32 <= 0xffff {
        1
    } else {
        2
    }
}

/// The number of bytes that UTF-8 gives a text.
pub open spec fn byte_len(s: Seq<char>) -> nat
    decreases s.len(),
{
    if s.len() == 0 {
        0
    } else {
        byte_len(s.drop_last()) + utf8_width(s.last())
    }
}

/// Offsets into the text can be held in 32 bits.
pub open spec fn fits(text: Seq<char>) -> bool {
    byte_len(text) <= u32::MAX
}

/// The number of bytes of a character.
pub fn utf8_width_of(c: char) -> (r: usize)
    ensures
        r == utf8_width(c),
{
    let u: u32 = c as u32;
    if u <= 0x7f {
        1
    } else if u <= 0x7ff {
        2
    } else if u <= 0xffff {
        3
    } else {
        4
    }
}

/// The number of UTF-16 code units of a character.
pub fn utf16_width_of(c: char) -> (r: u32)
    ensures
        r == utf16_width(c),
{
    let u: u32 = c as u32;
    if u <= 0xffff {
        1
    } else {
        2
    }
}

/// One more character adds its bytes.
pub proof fn lemma_byte_len_step(s: Seq<char>, i: int)
    requires
        0 <= i < s.len(),
    ensures
        byte_len(s.take(i + 1)) == byte_len(s.take(i)) + utf8_width(s[i]),
{
    assert(s.take(i + 1).drop_last() =~= s.take(i));
}

/// Offsets grow by at least one byte for each character.
pub proof fn lemma_byte_len_monotonic(s: Seq<char>, i: int, j: int)
    requires
        0 <= i <= j <= s.len(),
    ensures
        byte_len(s.take(i)) + (j - i) <= byte_len(s.take(j)),
        byte_len(s.take(j)) <= byte_len(s),
    decreases s.len() - i,
{
    if i < s.len() {
        lemma_byte_len_step(s, i);
        if i < j {
            lemma_byte_len_monotonic(s, i + 1, j);
        } else {
            lemma_byte_len_monotonic(s, i + 1, j + 1);
        }
    } else {
        assert(s.take(s.len() as int) =~= s);
    }
}

/// The bytes of two texts one after the other add up.
pub proof fn lemma_byte_len_add(a: Seq<char>, b: Seq<char>)
    ensures
        byte_len(a + b) == byte_len(a) + byte_len(b),
    decreases b.len(),
{
    if b.len() == 0 {
        assert(a + b =~= a);
    } else {
        assert((a + b).drop_last() =~= a + b.drop_last());
        lemma_byte_len_add(a, b.drop_last());
    }
}

/// The length in bytes that `str::len` gives is `byte_len`.
pub proof fn lemma_byte_len_is_encoded_length(s: Seq<char>)
    ensures
        byte_len(s) == vstd::utf8::encode_utf8(s).len(),
    decreases s.len(),
{
    if s.len() > 0 {
        lemma_byte_len_is_encoded_length(s.drop_first());
        assert(s =~= seq![s[0]] + s.drop_first());
        lemma_byte_len_add(seq![s[0]], s.drop_first());
        let first = seq![s[0]];
        assert(first.drop_last() =~= Seq::<char>::empty());
        assert(byte_len(first.drop_last()) == 0);
        assert(byte_len(first) == utf8_width(s[0]));
        vstd::utf8::char_is_scalar(s[0]);
        assert(vstd::utf8::encode_scalar(s[0] as u32).len() == utf8_width(s[0]));
    }
}

/// Whether offsets into a text can be held in 32 bits.
pub fn can_be_parsed(text: &str) -> (r: bool)
    ensures
        r == fits(text@),
{
    proof {
        lemma_byte_len_is_encoded_length(text@);
    }
    let bytes: &[u8] = text.as_bytes();
    bytes.len() <= 0xffff_ffff
}

/// The character at which a byte offset lies, if the offset is a character boundary.
pub open spec fn is_index_of(s: Seq<char>, offset: int, i: int) -> bool {
    0 <= i <= s.len() && byte_len(s.take(i)) == offset
}

/// The character at which a byte offset lies; `None` if it lies at none.
pub open spec fn char_index(s: Seq<char>, offset: int) -> Option<int> {
    if exists|i: int| is_index_of(s, offset, i) {
        Some(choose|i: int| is_index_of(s, offset, i))
    } else {
        None
    }
}

/// At most one character lies at an offset.
pub proof fn lemma_char_index(s: Seq<char>, offset: int, i: int)
    requires
        is_index_of(s, offset, i),
    ensures
        char_index(s, offset) == Some(i),
{
    let k = choose|k: int| is_index_of(s, offset, k);
    assert(is_index_of(s, offset, k));
    if k < i {
        lemma_byte_len_monotonic(s, k, i);
    } else if i < k {
        lemma_byte_len_monotonic(s, i, k);
    }
}

/// The character at which a byte offset lies.
pub fn char_index_of(chars: &Vec<char>, offset: usize) -> (r: Option<usize>)
    requires
        fits(chars@),
    ensures
        match r {
            Some(i) => char_index(chars@, offset as int) == Some(i as int) && i <= chars@.len()
                && byte_len(chars@.take(i as int)) == offset,
            None => char_index(chars@, offset as int) is None,
        },
{
    let mut i: usize = 0;
    let mut at: usize = 0;
    while i < chars.len() && at < offset
        invariant
            fits(chars@),
            i <= chars@.len(),
            at == byte_len(chars@.take(i as int)),
            forall|j: int| 0 <= j < i ==> byte_len(#[trigger] chars@.take(j)) < offset,
        decreases chars@.len() - i,
    {
        proof {
            lemma_byte_len_step(chars@, i as int);
            lemma_byte_len_monotonic(chars@, i + 1, i + 1);
        }
        at = at + utf8_width_of(chars[i]);
        i = i + 1;
    }
    if at == offset {
        proof {
            assert(is_index_of(chars@, offset as int, i as int));
            lemma_char_index(chars@, offset as int, i as int);
        }
        Some(i)
    } else {
        proof {
            assert forall|k: int| !is_index_of(chars@, offset as int, k) by {
                if 0 <= k <= chars@.len() {
                    if k < i {
                        assert(byte_len(chars@.take(k)) < offset);
                    } else {
                        lemma_byte_len_monotonic(chars@, i as int, k);
                    }
                }
            }
        }
        None
    }
}

/// The part of a text between two byte offsets; `None` if they are out of order, beyond the
/// end or inside a character.
pub open spec fn byte_slice(s: Seq<char>, start: int, end: int) -> Option<Seq<char>> {
    if start > end {
        None
    } else {
        match (char_index(s, start), char_index(s, end)) {
            (Some(i), Some(j)) => Some(s.subrange(i, j)),
            _ => None,
        }
    }
}

/// A part between two offsets has as many bytes as lie between them.
pub proof fn lemma_byte_slice_some(s: Seq<char>, start: int, end: int)
    requires
        byte_slice(s, start, end) is Some,
    ensures
        start <= end <= byte_len(s),
        byte_len(byte_slice(s, start, end)->0) == end - start,
        0 <= char_index(s, start)->0 <= char_index(s, end)->0 <= s.len(),
{
    let i = char_index(s, start)->0;
    let j = char_index(s, end)->0;
    assert(is_index_of(s, start, i));
    assert(is_index_of(s, end, j));
    if j < i {
        lemma_byte_len_monotonic(s, j, i);
    }
    lemma_byte_len_monotonic(s, i, j);
    assert(s.take(j) =~= s.take(i) + s.subrange(i, j));
    lemma_byte_len_add(s.take(i), s.subrange(i, j));
}

/// The part of a text between two byte offsets.
pub fn byte_slice_of(chars: &Vec<char>, start: usize, end: usize) -> (r: Option<Vec<char>>)
    requires
        fits(chars@),
    ensures
        option_view(r) == byte_slice(chars@, start as int, end as int),
{
    if start > end {
        return None;
    }
    match (char_index_of(chars, start), char_index_of(chars, end)) {
        (Some(i), Some(j)) => {
            proof {
                if j < i {
                    lemma_byte_len_monotonic(chars@, j as int, i as int);
                }
            }
            Some(subvec(chars, i, j))
        },
        _ => None,
    }
}

/// The characters from `start` up to `end`.
pub fn subvec(chars: &Vec<char>, start: usize, end: usize) -> (r: Vec<char>)
    requires
        start <= end <= chars@.len(),
    ensures
        r@ == chars@.subrange(start as int, end as int),
{
    let mut out: Vec<char> = Vec::new();
    let mut i: usize = start;
    while i < end
        invariant
            start <= i <= end <= chars@.len(),
            out@ == chars@.subrange(start as int, i as int),
        decreases end - i,
    {
        out.push(chars[i]);
        i = i + 1;
    }
    out
}

/// The length in bytes of the first `end` characters.
pub fn byte_len_of(chars: &Vec<char>, end: usize) -> (r: usize)
    requires
        fits(chars@),
        end <= chars@.len(),
    ensures
        r == byte_len(chars@.take(end as int)),
{
    let mut i: usize = 0;
    let mut at: usize = 0;
    while i < end
        invariant
            fits(chars@),
            i <= end <= chars@.len(),
            at == byte_len(chars@.take(i as int)),
        decreases end - i,
    {
        proof {
            lemma_byte_len_step(chars@, i as int);
            lemma_byte_len_monotonic(chars@, i + 1, i + 1);
        }
        at = at + utf8_width_of(chars[i]);
        i = i + 1;
    }
    at
}

/// Unicode's `White_Space` property.
pub open spec fn is_white(c: char) -> bool {
    let u = c as u32;
    ||| 0x9 <= u <= 0xd
    ||| u == 0x20
    ||| u == 0x85
    ||| u == 0xa0
    ||| u == 0x1680
    ||| 0x2000 <= u <= 0x200a
    ||| u == 0x2028
    ||| u == 0x2029
    ||| u == 0x202f
    ||| u == 0x205f
    ||| u == 0x3000
}

/// Whether a character is white space.
pub fn is_whitespace(c: char) -> (r: bool)
    ensures
        r == is_white(c),
{
    let u: u32 = c as u32;
    (0x9 <= u && u <= 0xd) || u == 0x20 || u == 0x85 || u == 0xa0 || u == 0x1680 || (0x2000 <= u
        && u <= 0x200a) || u == 0x2028 || u == 0x2029 || u == 0x202f || u == 0x205f || u == 0x3000
}

/// The text without the white space that it starts with.
pub open spec fn trim_start(s: Seq<char>) -> Seq<char>
    decreases s.len(),
{
    if s.len() > 0 && is_white(s[0]) {
        trim_start(s.drop_first())
    } else {
        s
    }
}

/// The text without the white space that it ends with.
pub open spec fn trim_end(s: Seq<char>) -> Seq<char>
    decreases s.len(),
{
    if s.len() > 0 && is_white(s.last()) {
        trim_end(s.drop_last())
    } else {
        s
    }
}

/// The text without the white space at its two ends.
pub open spec fn trim(s: Seq<char>) -> Seq<char> {
    trim_end(trim_start(s))
}

/// A text without the white space at its start.
pub fn trimmed_start(s: &Vec<char>) -> (r: Vec<char>)
    ensures
        r@ == trim_start(s@),
{
    let mut i: usize = 0;
    assert(s@.skip(0) =~= s@);
    while i < s.len() && is_whitespace(s[i])
        invariant
            i <= s@.len(),
            trim_start(s@) == trim_start(s@.skip(i as int)),
        decreases s@.len() - i,
    {
        assert(s@.skip(i as int).drop_first() =~= s@.skip(i + 1));
        i = i + 1;
    }
    let r: Vec<char> = subvec(s, i, s.len());
    assert(r@ =~= s@.skip(i as int));
    r
}

/// A text without the white space at its end.
pub fn trimmed_end(s: &Vec<char>) -> (r: Vec<char>)
    ensures
        r@ == trim_end(s@),
{
    let mut n: usize = s.len();
    assert(s@.take(n as int) =~= s@);
    while n > 0 && is_whitespace(s[n - 1])
        invariant
            n <= s@.len(),
            trim_end(s@) == trim_end(s@.take(n as int)),
        decreases n,
    {
        assert(s@.take(n as int).drop_last() =~= s@.take(n - 1));
        n = n - 1;
    }
    let r: Vec<char> = subvec(s, 0, n);
    assert(r@ =~= s@.take(n as int));
    r
}

/// A text without the white space at both ends.
pub fn trimmed(s: &Vec<char>) -> (r: Vec<char>)
    ensures
        r@ == trim(s@),
{
    trimmed_end(&trimmed_start(s))
}

/// The text without any white space.
pub open spec fn squeeze(s: Seq<char>) -> Seq<char> {
    s.filter(|c: char| !is_white(c))
}

proof fn lemma_squeeze_start(s: Seq<char>)
    ensures
        squeeze(trim_start(s)) == squeeze(s),
    decreases s.len(),
{
    if s.len() > 0 && is_white(s[0]) {
        lemma_squeeze_start(s.drop_first());
        let first = seq![s[0]];
        let keep = |c: char| !is_white(c);
        assert(s =~= first + s.drop_first());
        Seq::filter_distributes_over_add(first, s.drop_first(), keep);
        assert(first.filter(keep) =~= Seq::<char>::empty()) by {
            reveal(Seq::filter);
            assert(first.drop_last() =~= Seq::<char>::empty());
            assert(first.drop_last().filter(keep) =~= Seq::<char>::empty());
            assert(!keep(first.last()));
        }
        assert(squeeze(s) =~= squeeze(s.drop_first()));
    }
}

proof fn lemma_squeeze_end(s: Seq<char>)
    ensures
        squeeze(trim_end(s)) == squeeze(s),
    decreases s.len(),
{
    if s.len() > 0 && is_white(s.last()) {
        lemma_squeeze_end(s.drop_last());
        reveal(Seq::filter);
    }
}

/// White space at the ends of a text is white space.
pub proof fn lemma_squeeze_trim(s: Seq<char>)
    ensures
        squeeze(trim(s)) == squeeze(s),
{
    lemma_squeeze_start(s);
    lemma_squeeze_end(trim_start(s));
}

/// A text without its white space.
pub fn squeezed(s: &Vec<char>) -> (r: Vec<char>)
    ensures
        r@ == squeeze(s@),
{
    let mut out: Vec<char> = Vec::new();
    let mut i: usize = 0;
    assert(s@.take(0) =~= Seq::<char>::empty());
    reveal(Seq::filter);
    while i < s.len()
        invariant
            i <= s@.len(),
            out@ == squeeze(s@.take(i as int)),
        decreases s@.len() - i,
    {
        reveal(Seq::filter);
        assert(s@.take(i + 1).drop_last() =~= s@.take(i as int));
        if !is_whitespace(s[i]) {
            out.push(s[i]);
        }
        i = i + 1;
    }
    assert(s@.take(s@.len() as int) =~= s@);
    out
}

/// The pattern stands in the text at `i`.
pub open spec fn occurs_at(s: Seq<char>, pattern: Seq<char>, i: int) -> bool {
    0 <= i && i + pattern.len() <= s.len() && s.subrange(i, i + pattern.len()) == pattern
}

/// The first place, from `i` on, at which the pattern stands.
pub open spec fn find_from(s: Seq<char>, pattern: Seq<char>, i: int) -> Option<int>
    decreases s.len() + 1 - i,
{
    if i > s.len() {
        None
    } else if occurs_at(s, pattern, i) {
        Some(i)
    } else {
        find_from(s, pattern, i + 1)
    }
}

/// The first place at which the pattern stands.
pub open spec fn find(s: Seq<char>, pattern: Seq<char>) -> Option<int> {
    find_from(s, pattern, 0)
}

/// The last place before `i` at which the pattern stands.
pub open spec fn rfind_before(s: Seq<char>, pattern: Seq<char>, i: int) -> Option<int>
    decreases i,
{
    if i <= 0 {
        None
    } else if occurs_at(s, pattern, i - 1) {
        Some(i - 1)
    } else {
        rfind_before(s, pattern, i - 1)
    }
}

/// The last place at which the pattern stands.
pub open spec fn rfind(s: Seq<char>, pattern: Seq<char>) -> Option<int> {
    rfind_before(s, pattern, s.len() as int + 1)
}

/// The pattern stands somewhere in the text.
pub open spec fn contains(s: Seq<char>, pattern: Seq<char>) -> bool {
    exists|i: int| occurs_at(s, pattern, i)
}

/// Before the place that is found, from `from` on, the pattern does not stand.
pub proof fn lemma_find_from(s: Seq<char>, pattern: Seq<char>, from: int)
    ensures
        match find_from(s, pattern, from) {
            Some(i) => from <= i && occurs_at(s, pattern, i) && forall|j: int|
                from <= j < i ==> !occurs_at(s, pattern, j),
            None => forall|j: int| from <= j ==> !occurs_at(s, pattern, j),
        },
    decreases s.len() + 1 - from,
{
    if from <= s.len() && !occurs_at(s, pattern, from) {
        lemma_find_from(s, pattern, from + 1);
    }
}

/// `find` gives the place before which the pattern does not stand, and gives none only where
/// the pattern stands nowhere.
pub proof fn lemma_find(s: Seq<char>, pattern: Seq<char>)
    ensures
        match find(s, pattern) {
            Some(i) => occurs_at(s, pattern, i) && forall|j: int|
                j < i ==> !occurs_at(s, pattern, j),
            None => !contains(s, pattern),
        },
{
    lemma_find_from(s, pattern, 0);
    assert forall|j: int| j < 0 implies !occurs_at(s, pattern, j) by {}
}

/// After the place that is found, before `to`, the pattern does not stand.
pub proof fn lemma_rfind_before(s: Seq<char>, pattern: Seq<char>, to: int)
    ensures
        match rfind_before(s, pattern, to) {
            Some(i) => i < to && occurs_at(s, pattern, i) && forall|j: int|
                i < j < to ==> !occurs_at(s, pattern, j),
            None => forall|j: int| j < to ==> !occurs_at(s, pattern, j),
        },
    decreases to,
{
    if to > 0 && !occurs_at(s, pattern, to - 1) {
        lemma_rfind_before(s, pattern, to - 1);
    }
}

/// `rfind` gives the place after which the pattern does not stand, and gives none only where
/// the pattern stands nowhere.
pub proof fn last_occurrence_is_found(s: Seq<char>, pattern: Seq<char>)
    ensures
        match rfind(s, pattern) {
            Some(i) => occurs_at(s, pattern, i) && forall|j: int|
                i < j ==> !occurs_at(s, pattern, j),
            None => !contains(s, pattern),
        },
{
    lemma_rfind_before(s, pattern, s.len() as int + 1);
    assert forall|j: int| s.len() + 1 <= j implies !occurs_at(s, pattern, j) by {}
}

/// Whether a pattern stands in a text at `i`.
pub fn stands_at(s: &Vec<char>, pattern: &Vec<char>, i: usize) -> (r: bool)
    ensures
        r == occurs_at(s@, pattern@, i as int),
        r ==> i + pattern.len() <= s.len(),
{
    if i > s.len() || s.len() - i < pattern.len() {
        return false;
    }
    let mut k: usize = 0;
    while k < pattern.len()
        invariant
            i + pattern.len() <= s.len(),
            k <= pattern@.len(),
            forall|j: int| 0 <= j < k ==> s@[i + j] == pattern@[j],
        decreases pattern@.len() - k,
    {
        if s[i + k] != pattern[k] {
            assert(s@.subrange(i as int, i + pattern@.len())[k as int] != pattern@[k as int]);
            return false;
        }
        k = k + 1;
    }
    assert(s@.subrange(i as int, i + pattern@.len()) =~= pattern@);
    true
}

/// The first place at which a pattern stands.
pub fn find_in(s: &Vec<char>, pattern: &Vec<char>) -> (r: Option<usize>)
    ensures
        find(s@, pattern@) == (match r {
            Some(i) => Some(i as int),
            None => None,
        }),
        r matches Some(i) ==> i + pattern@.len() <= s@.len(),
{
    let mut i: usize = 0;
    while i < s.len()
        invariant
            i <= s@.len(),
            find(s@, pattern@) == find_from(s@, pattern@, i as int),
        decreases s@.len() - i,
    {
        if stands_at(s, pattern, i) {
            return Some(i);
        }
        i = i + 1;
    }
    if stands_at(s, pattern, i) {
        return Some(i);
    }
    assert(find_from(s@, pattern@, s@.len() as int + 1) is None);
    None
}

/// The last place at which a pattern stands.
pub fn rfind_in(s: &Vec<char>, pattern: &Vec<char>) -> (r: Option<usize>)
    ensures
        rfind(s@, pattern@) == (match r {
            Some(i) => Some(i as int),
            None => None,
        }),
        r matches Some(i) ==> i + pattern@.len() <= s@.len(),
{
    let mut i: usize = s.len();
    if stands_at(s, pattern, i) {
        return Some(i);
    }
    while i > 0
        invariant
            i <= s@.len(),
            rfind(s@, pattern@) == rfind_before(s@, pattern@, i as int),
        decreases i,
    {
        i = i - 1;
        if stands_at(s, pattern, i) {
            return Some(i);
        }
    }
    None
}

/// Whether a pattern stands in a text.
pub fn contains_in(s: &Vec<char>, pattern: &Vec<char>) -> (r: bool)
    ensures
        r == contains(s@, pattern@),
{
    proof {
        lemma_find(s@, pattern@);
    }
    find_in(s, pattern).is_some()
}

/// The text starts with the pattern.
pub open spec fn starts_with(s: Seq<char>, pattern: Seq<char>) -> bool {
    occurs_at(s, pattern, 0)
}

/// Whether a text starts with a pattern.
pub fn has_prefix(s: &Vec<char>, pattern: &str) -> (r: bool)
    ensures
        r == starts_with(s@, pattern@),
{
    stands_at(s, &chars_of(pattern), 0)
}

/// The pieces between the items at the places that `cut` marks, among the first `n`.
pub open spec fn split_first<T>(s: Seq<T>, cut: spec_fn(int) -> bool, n: int) -> Seq<Seq<T>>
    decreases n,
{
    if n <= 0 {
        seq![Seq::<T>::empty()]
    } else {
        let before = split_first(s, cut, n - 1);
        if cut(n - 1) {
            before.push(Seq::<T>::empty())
        } else {
            before.drop_last().push(before.last().push(s[n - 1]))
        }
    }
}

/// The pieces of a sequence between the items at the places that `cut` marks.
pub open spec fn split_where<T>(s: Seq<T>, cut: spec_fn(int) -> bool) -> Seq<Seq<T>> {
    split_first(s, cut, s.len() as int)
}

/// The places at which the sequence holds the separator.
pub open spec fn separator<T>(s: Seq<T>, sep: T) -> spec_fn(int) -> bool {
    |i: int| s[i] == sep
}

/// The pieces of a sequence between the separators; there is always at least one.
pub open spec fn split_on<T>(s: Seq<T>, sep: T) -> Seq<Seq<T>> {
    split_where(s, separator(s, sep))
}

/// There is always at least one piece.
pub proof fn lemma_split_first_nonempty(s: Seq<char>, cut: spec_fn(int) -> bool, n: int)
    ensures
        split_first(s, cut, n).len() >= 1,
    decreases n,
{
    if n > 0 {
        lemma_split_first_nonempty(s, cut, n - 1);
    }
}

/// The pieces of a text between the separators.
pub fn pieces(s: &Vec<char>, sep: char) -> (r: Vec<String>)
    ensures
        views(r@) == split_on(s@, sep),
        r@.len() >= 1,
{
    let mut done: Vec<String> = Vec::new();
    let mut current: String = String::new();
    let mut i: usize = 0;
    let ghost cut = separator(s@, sep);
    assert(views(done@).push(current@) =~= split_first(s@, cut, 0));
    while i < s.len()
        invariant
            i <= s@.len(),
            cut == separator(s@, sep),
            views(done@).push(current@) == split_first(s@, cut, i as int),
        decreases s@.len() - i,
    {
        let ghost before = split_first(s@, cut, i as int);
        assert(before.last() == current@);
        assert(before.drop_last() =~= views(done@));
        if s[i] == sep {
            proof {
                lemma_views_push(done@, current);
            }
            done.push(current);
            current = String::new();
        } else {
            current.push(s[i]);
        }
        i = i + 1;
        assert(views(done@).push(current@) =~= split_first(s@, cut, i as int));
    }
    proof {
        lemma_views_push(done@, current);
    }
    done.push(current);
    done
}

/// The sequences one after the other, with the separator between each two.
pub open spec fn join<T>(parts: Seq<Seq<T>>, sep: Seq<T>) -> Seq<T>
    decreases parts.len(),
{
    if parts.len() == 0 {
        Seq::empty()
    } else if parts.len() == 1 {
        parts[0]
    } else {
        join(parts.drop_last(), sep) + sep + parts.last()
    }
}

proof fn lemma_join_extend(parts: Seq<Seq<char>>, sep: Seq<char>, c: char)
    requires
        parts.len() > 0,
    ensures
        join(parts.drop_last().push(parts.last().push(c)), sep) == join(parts, sep).push(c),
{
    let longer = parts.drop_last().push(parts.last().push(c));
    assert(longer.drop_last() =~= parts.drop_last());
    if parts.len() == 1 {
        assert(longer.len() == 1);
    } else {
        assert(join(longer, sep) =~= join(parts, sep).push(c));
    }
}

proof fn lemma_split_joins_back(s: Seq<char>, sep: char, n: int)
    requires
        0 <= n <= s.len(),
    ensures
        join(split_first(s, separator(s, sep), n), seq![sep]) == s.take(n),
    decreases n,
{
    let cut = separator(s, sep);
    if n == 0 {
        assert(s.take(0) =~= Seq::<char>::empty());
    } else {
        lemma_split_joins_back(s, sep, n - 1);
        lemma_split_first_nonempty(s, cut, n - 1);
        let before = split_first(s, cut, n - 1);
        assert(s.take(n) =~= s.take(n - 1).push(s[n - 1]));
        if cut(n - 1) {
            let after = before.push(Seq::<char>::empty());
            assert(after.drop_last() =~= before);
            assert(join(after, seq![sep]) =~= s.take(n - 1).push(sep));
        } else {
            lemma_join_extend(before, seq![sep], s[n - 1]);
        }
    }
}

/// The pieces of a text, put together with the separator between them, are the text again.
pub proof fn pieces_join_back(s: Seq<char>, sep: char)
    ensures
        join(split_on(s, sep), seq![sep]) == s,
{
    lemma_split_joins_back(s, sep, s.len() as int);
    assert(s.take(s.len() as int) =~= s);
}

/// Texts one after the other, with a separator between each two.
pub fn joined(parts: &Vec<String>, sep: &str) -> (r: String)
    ensures
        r@ == join(views(parts@), sep@),
{
    let mut out: String = String::new();
    let mut i: usize = 0;
    let ghost all = views(parts@);
    while i < parts.len()
        invariant
            i <= parts@.len(),
            all == views(parts@),
            out@ == join(all.take(i as int), sep@),
        decreases parts@.len() - i,
    {
        assert(all.take(i + 1).drop_last() =~= all.take(i as int));
        if i > 0 {
            out.append(sep);
        } else {
            assert(out@ + parts@[0]@ =~= parts@[0]@);
        }
        out.append(parts[i].as_str());
        i = i + 1;
    }
    assert(all.take(all.len() as int) =~= all);
    out
}

/// A line without the carriage return that it may end with.
pub open spec fn strip_return(line: Seq<char>) -> Seq<char> {
    if line.len() > 0 && line.last() == '\r' {
        line.drop_last()
    } else {
        line
    }
}

/// The lines of a text, without their line ends; an empty last line does not count.
pub open spec fn lines(s: Seq<char>) -> Seq<Seq<char>> {
    let parts = split_on(s, '\n');
    let ended = parts.drop_last().map_values(|line: Seq<char>| strip_return(line));
    if parts.last().len() == 0 {
        ended
    } else {
        ended.push(parts.last())
    }
}

/// What an element is mapped to stands among the mapped elements.
pub proof fn lemma_filter_map_has<A, B>(s: Seq<A>, f: spec_fn(A) -> Option<B>, i: int)
    requires
        0 <= i < s.len(),
        f(s[i]) is Some,
    ensures
        s.filter_map(f).contains(f(s[i]).unwrap()),
    decreases s.len(),
{
    reveal(Seq::filter_map);
    let fewer = s.drop_last();
    let b = f(s[i]).unwrap();
    if i < fewer.len() {
        lemma_filter_map_has(fewer, f, i);
        let k = fewer.filter_map(f).index_of(b);
        assert(s.filter_map(f)[k] == b);
    } else {
        assert(s.filter_map(f).last() == b);
    }
}

/// What stands among the parts of all elements is a part of one of them.
pub proof fn lemma_flat_map_source<A, B>(s: Seq<A>, f: spec_fn(A) -> Seq<B>, b: B) -> (i: int)
    requires
        s.flat_map(f).contains(b),
    ensures
        0 <= i < s.len(),
        f(s[i]).contains(b),
    decreases s.len(),
{
    if s.len() == 0 {
        assert(s.flat_map(f) =~= Seq::<B>::empty());
        0
    } else {
        let n = s.len() - 1;
        s.lemma_flat_map_take_append(f, n);
        assert(s.take(n + 1) =~= s);
        let before = s.take(n).flat_map(f);
        let k = s.flat_map(f).index_of(b);
        if k < before.len() {
            assert(before[k] == b);
            lemma_flat_map_source(s.take(n), f, b)
        } else {
            assert(f(s[n])[k - before.len()] == b);
            n
        }
    }
}

/// A part of an element stands among the parts of all elements.
pub proof fn lemma_flat_map_has<A, B>(s: Seq<A>, f: spec_fn(A) -> Seq<B>, i: int, j: int)
    requires
        0 <= i < s.len(),
        0 <= j < f(s[i]).len(),
    ensures
        s.flat_map(f).contains(f(s[i])[j]),
    decreases s.len(),
{
    let fewer = s.drop_last();
    let n = s.len() - 1;
    s.lemma_flat_map_take_append(f, n);
    assert(s.take(n) =~= fewer);
    assert(s.take(n + 1) =~= s);
    let all = s.flat_map(f);
    let part = f(s[i])[j];
    if i < n {
        lemma_flat_map_has(fewer, f, i, j);
        let k = fewer.flat_map(f).index_of(part);
        assert(all[k] == part);
    } else {
        assert(all[fewer.flat_map(f).len() + j] == part);
    }
}

/// The text is empty, or its last line is ended.
pub open spec fn is_ended(s: Seq<char>) -> bool {
    s.len() == 0 || s.last() == '\n'
}

proof fn lemma_split_of_prefix(s: Seq<char>, a: Seq<char>, sep: char, n: int)
    requires
        0 <= n <= a.len() <= s.len(),
        forall|i: int| 0 <= i < n ==> s[i] == #[trigger] a[i],
    ensures
        split_first(s, separator(s, sep), n) == split_first(a, separator(a, sep), n),
    decreases n,
{
    if n > 0 {
        lemma_split_of_prefix(s, a, sep, n - 1);
        assert(s[n - 1] == a[n - 1]);
    }
}

proof fn lemma_split_of_rest(a: Seq<char>, b: Seq<char>, n: int)
    requires
        is_ended(a),
        0 <= n <= b.len(),
    ensures
        split_first(a + b, separator(a + b, '\n'), a.len() + n) == split_on(a, '\n').drop_last()
            + split_first(b, separator(b, '\n'), n),
        split_on(a, '\n').last() == Seq::<char>::empty(),
    decreases n,
{
    let s = a + b;
    let whole = split_first(s, separator(s, '\n'), a.len() + n);
    let head = split_on(a, '\n').drop_last();
    let tail = split_first(b, separator(b, '\n'), n);
    lemma_split_first_nonempty(a, separator(a, '\n'), a.len() as int);
    lemma_split_of_prefix(s, a, '\n', a.len() as int);
    if n == 0 {
        assert(whole =~= head + tail);
    } else {
        lemma_split_of_rest(a, b, n - 1);
        lemma_split_first_nonempty(b, separator(b, '\n'), n - 1);
        assert(s[a.len() + n - 1] == b[n - 1]);
        assert(whole =~= head + tail);
    }
}

/// The lines of two texts one after the other, where the first ends a line.
pub proof fn lemma_lines_of_both(a: Seq<char>, b: Seq<char>)
    requires
        is_ended(a),
    ensures
        lines(a + b) == lines(a) + lines(b),
{
    lemma_split_of_rest(a, b, b.len() as int);
    lemma_split_first_nonempty(b, separator(b, '\n'), b.len() as int);
    lemma_split_first_nonempty(a, separator(a, '\n'), a.len() as int);
    let parts = split_on(a + b, '\n');
    assert(parts == split_on(a, '\n').drop_last() + split_on(b, '\n'));
    assert(parts.last() == split_on(b, '\n').last());
    assert(lines(a + b) =~= lines(a) + lines(b));
}

proof fn lemma_split_without(s: Seq<char>, n: int)
    requires
        0 <= n <= s.len(),
        forall|i: int| 0 <= i < n ==> #[trigger] s[i] != '\n',
    ensures
        split_first(s, separator(s, '\n'), n) == seq![s.take(n)],
    decreases n,
{
    if n > 0 {
        lemma_split_without(s, n - 1);
        assert(s[n - 1] != '\n');
        assert(s.take(n) =~= s.take(n - 1).push(s[n - 1]));
    } else {
        assert(s.take(0) =~= Seq::<char>::empty());
    }
    assert(split_first(s, separator(s, '\n'), n) =~= seq![s.take(n)]);
}

/// A text without line ends, and one behind it, is a line.
pub proof fn lemma_lines_of_line(line: Seq<char>)
    requires
        forall|i: int| 0 <= i < line.len() ==> #[trigger] line[i] != '\n',
        line.len() == 0 || line.last() != '\r',
    ensures
        lines(line.push('\n')) == seq![line],
{
    let s = line.push('\n');
    let n = line.len() as int;
    assert forall|i: int| 0 <= i < n implies #[trigger] s[i] != '\n' by {
        assert(s[i] == line[i]);
    }
    lemma_split_without(s, n);
    assert(s.take(n) =~= line);
    let parts = split_on(s, '\n');
    assert(s[n] == '\n');
    assert(parts =~= seq![line, Seq::<char>::empty()]);
    assert(parts.drop_last() =~= seq![line]);
    assert(lines(s) =~= seq![line]);
}

/// The lines of a text.
pub fn lines_of(s: &Vec<char>) -> (r: Vec<Vec<char>>)
    ensures
        views(r@) == lines(s@),
{
    let parts: Vec<String> = pieces(s, '\n');
    let ghost all = split_on(s@, '\n');
    let mut out: Vec<Vec<char>> = Vec::new();
    let mut i: usize = 0;
    while i < parts.len() - 1
        invariant
            parts@.len() >= 1,
            i <= parts@.len() - 1,
            views(parts@) == all,
            views(out@) =~= all.take(i as int).map_values(|line: Seq<char>| strip_return(line)),
        decreases parts@.len() - i,
    {
        let mut line: Vec<char> = chars_of(parts[i].as_str());
        assert(line@ == all[i as int]);
        if line.len() > 0 && line[line.len() - 1] == '\r' {
            line.pop();
        }
        proof {
            lemma_views_push(out@, line);
            assert(all.take(i + 1) =~= all.take(i as int).push(all[i as int]));
        }
        out.push(line);
        i = i + 1;
    }
    assert(all.take(i as int) =~= all.drop_last());
    let last: Vec<char> = chars_of(parts[i].as_str());
    assert(last@ == all.last());
    if last.len() > 0 {
        proof {
            lemma_views_push(out@, last);
        }
        out.push(last);
    }
    out
}

/// The order of texts: by the first character in which they differ, a prefix before what
/// continues it.
pub open spec fn before(a: Seq<char>, b: Seq<char>) -> bool
    decreases a.len(),
{
    if b.len() == 0 {
        false
    } else if a.len() == 0 {
        true
    } else if a[0] != b[0] {
        (a[0] as u32) < (b[0] as u32)
    } else {
        before(a.drop_first(), b.drop_first())
    }
}

/// Of two texts one goes before the other, unless they are the same.
pub proof fn lemma_before_total(a: Seq<char>, b: Seq<char>)
    ensures
        before(a, b) || before(b, a) || a == b,
        !(before(a, b) && before(b, a)),
        a == b ==> !before(a, b),
    decreases a.len(),
{
    if a.len() == 0 || b.len() == 0 {
        if a.len() == 0 && b.len() == 0 {
            assert(a =~= b);
        }
    } else if a[0] == b[0] {
        lemma_before_total(a.drop_first(), b.drop_first());
        if a.drop_first() == b.drop_first() {
            assert(a =~= seq![a[0]] + a.drop_first());
            assert(b =~= seq![b[0]] + b.drop_first());
        }
    } else {
        vstd::utf8::char_u32_cast(a[0], a[0] as u32);
        vstd::utf8::char_u32_cast(b[0], b[0] as u32);
    }
}

/// The order of texts goes on from one to the next.
pub proof fn lemma_before_transitive(a: Seq<char>, b: Seq<char>, c: Seq<char>)
    requires
        before(a, b),
        before(b, c),
    ensures
        before(a, c),
    decreases a.len(),
{
    if a.len() > 0 && b.len() > 0 && c.len() > 0 && a[0] == b[0] && b[0] == c[0] {
        lemma_before_transitive(a.drop_first(), b.drop_first(), c.drop_first());
    }
}

/// Whether a text goes before another.
pub fn is_before(a: &str, b: &str) -> (r: bool)
    ensures
        r == before(a@, b@),
{
    let x: Vec<char> = chars_of(a);
    let y: Vec<char> = chars_of(b);
    let mut i: usize = 0;
    assert(x@.skip(0) =~= x@);
    assert(y@.skip(0) =~= y@);
    while i < x.len() && i < y.len() && x[i] == y[i]
        invariant
            i <= x@.len(),
            i <= y@.len(),
            before(x@, y@) == before(x@.skip(i as int), y@.skip(i as int)),
        decreases x@.len() - i,
    {
        assert(x@.skip(i as int).drop_first() =~= x@.skip(i + 1));
        assert(y@.skip(i as int).drop_first() =~= y@.skip(i + 1));
        i = i + 1;
    }
    if i >= y.len() {
        false
    } else if i >= x.len() {
        true
    } else {
        let p: char = x[i];
        let q: char = y[i];
        (p as u32) < (q as u32)
    }
}

/// One character stands at a place exactly if the text has it there.
pub proof fn lemma_occurs_one(s: Seq<char>, c: char, i: int)
    ensures
        occurs_at(s, seq![c], i) <==> 0 <= i < s.len() && s[i] == c,
{
    if 0 <= i < s.len() {
        assert(s.subrange(i, i + 1) =~= seq![s[i]]);
        assert(seq![s[i]][0] == s[i]);
        assert(seq![c][0] == c);
    }
}

/// A text contains a pattern exactly if it is something, the pattern, and something.
pub proof fn contained_text_stands_inside(s: Seq<char>, pattern: Seq<char>)
    ensures
        contains(s, pattern) <==> exists|head: Seq<char>, tail: Seq<char>|
            s == #[trigger] (head + pattern + tail),
{
    if contains(s, pattern) {
        let i = choose|i: int| occurs_at(s, pattern, i);
        let head = s.take(i);
        let tail = s.skip(i + pattern.len());
        assert(s =~= head + pattern + tail);
    }
    if exists|head: Seq<char>, tail: Seq<char>| s == #[trigger] (head + pattern + tail) {
        let (head, tail) = choose|head: Seq<char>, tail: Seq<char>|
            s == #[trigger] (head + pattern + tail);
        assert(s.subrange(head.len() as int, (head.len() + pattern.len()) as int) =~= pattern);
        assert(occurs_at(s, pattern, head.len() as int));
    }
}

/// Trimming takes white space off both ends and nothing else: the text is white space, the
/// trimmed text, and white space, and the trimmed text neither starts nor ends with any.
pub proof fn trimming_takes_white_space_off(s: Seq<char>) -> (r: (Seq<char>, Seq<char>))
    ensures
        s == r.0 + trim(s) + r.1,
        forall|i: int| 0 <= i < r.0.len() ==> is_white(#[trigger] r.0[i]),
        forall|i: int| 0 <= i < r.1.len() ==> is_white(#[trigger] r.1[i]),
        trim(s).len() > 0 ==> !is_white(trim(s)[0]) && !is_white(trim(s).last()),
{
    let head = lemma_trim_start(s);
    let tail = lemma_trim_end(trim_start(s));
    assert(s =~= head + trim(s) + tail);
    if trim(s).len() > 0 {
        assert(trim(s)[0] == trim_start(s)[0]);
    }
    (head, tail)
}

proof fn lemma_trim_start(s: Seq<char>) -> (head: Seq<char>)
    ensures
        s == head + trim_start(s),
        forall|i: int| 0 <= i < head.len() ==> is_white(#[trigger] head[i]),
        trim_start(s).len() > 0 ==> !is_white(trim_start(s)[0]),
    decreases s.len(),
{
    if s.len() > 0 && is_white(s[0]) {
        let rest = lemma_trim_start(s.drop_first());
        let head = seq![s[0]] + rest;
        assert(s =~= seq![s[0]] + s.drop_first());
        assert(s =~= head + trim_start(s));
        head
    } else {
        assert(s =~= Seq::<char>::empty() + s);
        Seq::empty()
    }
}

proof fn lemma_trim_end(s: Seq<char>) -> (tail: Seq<char>)
    ensures
        s == trim_end(s) + tail,
        forall|i: int| 0 <= i < tail.len() ==> is_white(#[trigger] tail[i]),
        trim_end(s).len() > 0 ==> !is_white(trim_end(s).last()),
    decreases s.len(),
{
    if s.len() > 0 && is_white(s.last()) {
        let rest = lemma_trim_end(s.drop_last());
        let tail = rest.push(s.last());
        assert(s =~= s.drop_last().push(s.last()));
        assert(s =~= trim_end(s) + tail);
        tail
    } else {
        assert(s =~= s + Seq::<char>::empty());
        Seq::empty()
    }
}

/// Squeezing goes through a text character by character: it drops white space and keeps what is
/// none, in its order.
pub proof fn squeezing_drops_white_space_alone(a: Seq<char>, b: Seq<char>, c: char)
    ensures
        squeeze(a + b) == squeeze(a) + squeeze(b),
        squeeze(seq![c]) == (if is_white(c) {
            Seq::empty()
        } else {
            seq![c]
        }),
        forall|i: int| 0 <= i < squeeze(a).len() ==> !is_white(#[trigger] squeeze(a)[i]),
{
    let keep = |c: char| !is_white(c);
    Seq::filter_distributes_over_add(a, b, keep);
    reveal(Seq::filter);
    let one = seq![c];
    assert(one.drop_last() =~= Seq::<char>::empty());
    assert(one.drop_last().filter(keep) =~= Seq::<char>::empty());
    assert(squeeze(one) =~= (if is_white(c) {
        Seq::empty()
    } else {
        one
    }));
    assert forall|i: int| 0 <= i < squeeze(a).len() implies !is_white(#[trigger] squeeze(a)[i]) by {
        a.lemma_filter_pred(keep, i);
    }
}

/// Of the characters of ASCII only the space and the five controls that move the cursor are
/// white.
pub proof fn printed_characters_are_not_white(c: char)
    requires
        c as u32 <= 0x7f,
    ensures
        is_white(c) <==> c == ' ' || c == '\t' || c == '\n' || c == '\u{b}' || c == '\u{c}' || c
            == '\r',
{
}

proof fn lemma_no_separator<T>(s: Seq<T>, sep: T, n: int)
    requires
        0 <= n <= s.len(),
    ensures
        forall|i: int|
            0 <= i < split_first(s, separator(s, sep), n).len() ==> !(#[trigger] split_first(
                s,
                separator(s, sep),
                n,
            )[i]).contains(sep),
    decreases n,
{
    let cut = separator(s, sep);
    let all = split_first(s, cut, n);
    if n > 0 {
        lemma_no_separator(s, sep, n - 1);
        let before = split_first(s, cut, n - 1);
        lemma_split_some(s, cut, n - 1);
        assert forall|i: int| 0 <= i < all.len() implies !(#[trigger] all[i]).contains(sep) by {
            if i < before.len() - 1 || (i < before.len() && cut(n - 1)) {
                assert(all[i] == before[i]);
            } else if !cut(n - 1) {
                let longer = before.last().push(s[n - 1]);
                assert(all[i] == longer);
                if longer.contains(sep) {
                    let k = longer.index_of(sep);
                    if k < before.last().len() {
                        assert(before.last()[k] == sep);
                        assert(before[before.len() - 1].contains(sep));
                    }
                }
            }
        }
    }
}

proof fn lemma_split_some<T>(s: Seq<T>, cut: spec_fn(int) -> bool, n: int)
    ensures
        split_first(s, cut, n).len() >= 1,
    decreases n,
{
    if n > 0 {
        lemma_split_some(s, cut, n - 1);
    }
}

/// The pieces between the separators hold none, so that they are as many as there are
/// separators, and one more.
pub proof fn pieces_hold_no_separator<T>(s: Seq<T>, sep: T)
    ensures
        split_on(s, sep).len() >= 1,
        forall|i: int|
            0 <= i < split_on(s, sep).len() ==> !(#[trigger] split_on(s, sep)[i]).contains(sep),
{
    lemma_no_separator(s, sep, s.len() as int);
    lemma_split_some(s, separator(s, sep), s.len() as int);
}

/// A text goes before another exactly if it is the start of it and shorter, or has the smaller
/// character at the first place at which they differ.
pub proof fn texts_are_ordered_by_their_characters(a: Seq<char>, b: Seq<char>)
    ensures
        before(a, b) <==> exists|k: int| #[trigger] differs_first(a, b, k) && k < b.len() && (k
            == a.len() || (a[k] as u32) < (b[k] as u32)),
    decreases a.len(),
{
    if a.len() > 0 && b.len() > 0 && a[0] == b[0] {
        let (x, y) = (a.drop_first(), b.drop_first());
        texts_are_ordered_by_their_characters(x, y);
        if before(x, y) {
            let k = choose|k: int| #[trigger] differs_first(x, y, k) && k < y.len() && (k == x.len()
                || (x[k] as u32) < (y[k] as u32));
            assert(differs_first(a, b, k + 1)) by {
                assert forall|i: int| 0 <= i < k + 1 implies #[trigger] a[i] == b[i] by {
                    if i > 0 {
                        assert(x[i - 1] == y[i - 1]);
                    }
                }
            }
        }
        if exists|k: int| #[trigger] differs_first(a, b, k) && k < b.len() && (k == a.len() || (
        a[k] as u32) < (b[k] as u32)) {
            let k = choose|k: int| #[trigger] differs_first(a, b, k) && k < b.len() && (k == a.len()
                || (a[k] as u32) < (b[k] as u32));
            assert(differs_first(x, y, k - 1)) by {
                assert forall|i: int| 0 <= i < k - 1 implies #[trigger] x[i] == y[i] by {
                    assert(a[i + 1] == b[i + 1]);
                }
            }
        }
    } else {
        assert(differs_first(a, b, 0));
        if exists|k: int| #[trigger] differs_first(a, b, k) && k < b.len() && (k == a.len() || (
        a[k] as u32) < (b[k] as u32)) {
            let k = choose|k: int| #[trigger] differs_first(a, b, k) && k < b.len() && (k == a.len()
                || (a[k] as u32) < (b[k] as u32));
            if k > 0 {
                assert(a[0] == b[0]);
            }
        }
    }
}

/// The texts are the same before the place, and not at it, where both go on.
pub open spec fn differs_first(a: Seq<char>, b: Seq<char>, k: int) -> bool {
    &&& 0 <= k <= a.len() && k <= b.len()
    &&& forall|i: int| 0 <= i < k ==> #[trigger] a[i] == b[i]
    &&& k == a.len() || k == b.len() || a[k] != b[k]
}

proof fn lemma_split_prefix<T>(s: Seq<T>, a: Seq<T>, sep: T, n: int)
    requires
        0 <= n <= a.len() <= s.len(),
        forall|i: int| 0 <= i < n ==> s[i] == #[trigger] a[i],
    ensures
        split_first(s, separator(s, sep), n) == split_first(a, separator(a, sep), n),
    decreases n,
{
    if n > 0 {
        lemma_split_prefix(s, a, sep, n - 1);
        assert(s[n - 1] == a[n - 1]);
    }
}

proof fn lemma_split_behind<T>(a: Seq<T>, b: Seq<T>, sep: T, n: int)
    requires
        0 <= n <= b.len(),
    ensures
        split_first(
            a + seq![sep] + b,
            separator(a + seq![sep] + b, sep),
            (a.len() + 1 + n) as int,
        ) == split_on(a, sep) + split_first(b, separator(b, sep), n),
    decreases n,
{
    let s = a + seq![sep] + b;
    let head = split_on(a, sep);
    let whole = split_first(s, separator(s, sep), (a.len() + 1 + n) as int);
    let tail = split_first(b, separator(b, sep), n);
    if n == 0 {
        assert forall|i: int| 0 <= i < a.len() implies s[i] == #[trigger] a[i] by {}
        lemma_split_prefix(s, a, sep, a.len() as int);
        assert(s[a.len() as int] == sep);
        assert(whole =~= head + tail);
    } else {
        lemma_split_behind(a, b, sep, n - 1);
        lemma_split_some(b, separator(b, sep), n - 1);
        assert(s[a.len() + n] == b[n - 1]);
        assert(whole =~= head + tail);
    }
}

/// At a separator a sequence is split: the pieces before it come first, then those behind it.
pub proof fn pieces_come_in_order<T>(a: Seq<T>, b: Seq<T>, sep: T)
    ensures
        split_on(a + seq![sep] + b, sep) == split_on(a, sep) + split_on(b, sep),
        !a.contains(sep) ==> split_on(a, sep) == seq![a],
{
    let s = a + seq![sep] + b;
    lemma_split_behind(a, b, sep, b.len() as int);
    assert(s.len() == a.len() + 1 + b.len());
    if !a.contains(sep) {
        lemma_one_piece(a, sep, a.len() as int);
        assert(a.take(a.len() as int) =~= a);
    }
}

proof fn lemma_one_piece<T>(s: Seq<T>, sep: T, n: int)
    requires
        0 <= n <= s.len(),
        !s.contains(sep),
    ensures
        split_first(s, separator(s, sep), n) == seq![s.take(n)],
    decreases n,
{
    if n > 0 {
        lemma_one_piece(s, sep, n - 1);
        assert(s[n - 1] != sep);
        assert(s.take(n) =~= s.take(n - 1).push(s[n - 1]));
    } else {
        assert(s.take(0) =~= Seq::<T>::empty());
    }
    assert(split_first(s, separator(s, sep), n) =~= seq![s.take(n)]);
}

/// Sequences that are joined one list after the other have the separator between the lists.
pub proof fn lists_are_joined_in_order<T>(a: Seq<Seq<T>>, b: Seq<Seq<T>>, sep: Seq<T>)
    requires
        a.len() > 0,
        b.len() > 0,
    ensures
        join(a + b, sep) == join(a, sep) + sep + join(b, sep),
    decreases b.len(),
{
    let whole = a + b;
    if b.len() == 1 {
        assert(whole.drop_last() =~= a);
        assert(join(whole, sep) =~= join(a, sep) + sep + join(b, sep));
    } else {
        lists_are_joined_in_order(a, b.drop_last(), sep);
        assert(whole.drop_last() =~= a + b.drop_last());
        assert(join(whole, sep) =~= join(a, sep) + sep + join(b, sep));
    }
}

/// A line that ends in a carriage return and a line feed loses both, one that ends the text
/// without a line feed keeps what it has, and an empty text has no lines.
pub proof fn lines_lose_their_ends(line: Seq<char>)
    requires
        !line.contains('\n'),
    ensures
        lines(line + seq!['\r', '\n']) == seq![line],
        line.len() > 0 ==> lines(line) == seq![line],
        lines(Seq::empty()) == Seq::<Seq<char>>::empty(),
{
    let s = line + seq!['\r', '\n'];
    let with_return = line.push('\r');
    let none = Seq::<char>::empty();
    pieces_come_in_order(with_return, none, '\n');
    assert(s =~= with_return + seq!['\n'] + none);
    assert(!with_return.contains('\n')) by {
        if with_return.contains('\n') {
            let k = with_return.index_of('\n');
            assert(line[k] == '\n');
        }
    }
    pieces_come_in_order(none, none, '\n');
    assert(split_on(none, '\n') =~= seq![none]);
    let parts = split_on(s, '\n');
    assert(parts =~= seq![with_return, none]);
    assert(strip_return(with_return) =~= line);
    assert(lines(s) =~= seq![line]);
    pieces_come_in_order(line, none, '\n');
    assert(split_on(line, '\n') =~= seq![line]);
    if line.len() > 0 {
        assert(lines(line) =~= seq![line]);
    }
    assert(lines(none) =~= Seq::<Seq<char>>::empty());
}

/// Outside ASCII the white characters are the next-line control, the spaces of Unicode, and its
/// line and paragraph separators.
pub proof fn other_white_characters(c: char)
    requires
        c as u32 > 0x7f,
    ensures
        is_white(c) <==> c == '\u{85}' || c == '\u{a0}' || c == '\u{1680}' || '\u{2000}' <= c
            <= '\u{200a}' || c == '\u{2028}' || c == '\u{2029}' || c == '\u{202f}' || c
            == '\u{205f}' || c == '\u{3000}',
{
}

/// The part between the byte offsets of two characters is what stands between the characters;
/// between other offsets there is none.
pub proof fn parts_stand_between_characters(s: Seq<char>, i: int, j: int, offset: int)
    requires
        0 <= i <= j <= s.len(),
    ensures
        byte_slice(s, byte_len(s.take(i)) as int, byte_len(s.take(j)) as int) == Some(
            s.subrange(i, j),
        ),
        (forall|k: int| 0 <= k <= s.len() ==> byte_len(#[trigger] s.take(k)) != offset)
            ==> byte_slice(s, offset, byte_len(s.take(j)) as int) is None && byte_slice(
            s,
            byte_len(s.take(i)) as int,
            offset,
        ) is None,
{
    lemma_byte_len_monotonic(s, i, j);
    lemma_char_index(s, byte_len(s.take(i)) as int, i);
    lemma_char_index(s, byte_len(s.take(j)) as int, j);
    if forall|k: int| 0 <= k <= s.len() ==> byte_len(#[trigger] s.take(k)) != offset {
        assert(char_index(s, offset) is None) by {
            if exists|k: int| is_index_of(s, offset, k) {
                let k = choose|k: int| is_index_of(s, offset, k);
                assert(byte_len(s.take(k)) == offset);
            }
        }
    }
}

/// What two elements are mapped to stands in their order among the mapped elements.
pub proof fn lemma_filter_map_order<A, B>(
    s: Seq<A>,
    f: spec_fn(A) -> Option<B>,
    a: int,
    b: int,
) -> (r: (int, int))
    requires
        0 <= a < b < s.len(),
        f(s[a]) is Some,
        f(s[b]) is Some,
    ensures
        0 <= r.0 < r.1 < s.filter_map(f).len(),
        s.filter_map(f)[r.0] == f(s[a])->0,
        s.filter_map(f)[r.1] == f(s[b])->0,
    decreases s.len(),
{
    reveal(Seq::filter_map);
    let fewer = s.drop_last();
    let all = s.filter_map(f);
    let some = fewer.filter_map(f);
    if b < fewer.len() {
        let (i, j) = lemma_filter_map_order(fewer, f, a, b);
        assert(all[i] == some[i] && all[j] == some[j]);
        (i, j)
    } else {
        lemma_filter_map_has(fewer, f, a);
        let i = some.index_of(f(fewer[a])->0);
        assert(all[i] == f(s[a])->0);
        assert(all[some.len() as int] == f(s[b])->0);
        (i, some.len() as int)
    }
}

/// A text can be parsed exactly if a 32-bit number holds how many bytes its UTF-8 has.
pub proof fn texts_fit_by_their_bytes(s: Seq<char>)
    ensures
        fits(s) <==> vstd::utf8::encode_utf8(s).len() <= 0xffff_ffff,
{
    lemma_byte_len_is_encoded_length(s);
}

/// As many elements are mapped as there are ones that `f` maps.
pub proof fn lemma_filter_map_count<A, B>(s: Seq<A>, f: spec_fn(A) -> Option<B>)
    ensures
        s.filter_map(f).len() == s.filter(|a: A| f(a) is Some).len(),
    decreases s.len(),
{
    reveal(Seq::filter);
    reveal(Seq::filter_map);
    if s.len() > 0 {
        lemma_filter_map_count(s.drop_last(), f);
    }
}

}
