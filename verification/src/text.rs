//! Text as sequences of characters: searching, trimming, splitting, and the
//! header fields of requests.
use vstd::prelude::*;
use vstd::slice::slice_subrange;

verus! {

broadcast use vstd::string::group_string_axioms;

/// `String::push` appends one character to the end of the string.
pub assume_specification[ String::push ](s: &mut String, c: char)
    ensures
        final(s)@ == old(s)@.push(c),
;

/// What `String::from_utf8_lossy` makes of a byte sequence.
pub uninterp spec fn utf8_lossy(bytes: Seq<u8>) -> Seq<char>;

/// Decodes bytes with `String::from_utf8_lossy`, which puts U+FFFD in place
/// of what is not UTF-8. Which bytes each replacement stands for is left to
/// the name `utf8_lossy`; bytes that are UTF-8 decode to their characters.
#[verifier::external_body]
pub(crate) fn decode_lossy(bytes: &[u8]) -> (text: String)
    ensures
        text@ == utf8_lossy(bytes@),
        vstd::utf8::valid_utf8(bytes@) ==> text@ == vstd::utf8::decode_utf8(bytes@),
{
    String::from_utf8_lossy(bytes).into_owned()
}

/// The characters of a string.
pub fn chars_of(s: &str) -> (v: Vec<char>)
    ensures
        v@ == s@,
{
    let mut v: Vec<char> = Vec::new();
    for c in it: s.chars()
        invariant
            it.seq() == s@,
            v@ == s@.take(it.index()),
    {
        v.push(c);
    }
    v
}

/// The string made of the given characters.
pub fn string_of(v: &[char]) -> (s: String)
    ensures
        s@ == v@,
{
    let mut s = String::new();
    let mut i: usize = 0;
    while i < v.len()
        invariant
            i <= v@.len(),
            s@ == v@.take(i as int),
        decreases v@.len() - i,
    {
        s.push(v[i]);
        i += 1;
    }
    s
}

/// Whether the characters are those of the given string.
pub fn is_text(a: &[char], b: &str) -> (r: bool)
    ensures
        r == (a@ == b@),
{
    let other = chars_of(b);
    if a.len() != other.len() {
        return false;
    }
    let mut i: usize = 0;
    while i < a.len()
        invariant
            i <= a@.len(),
            other@ == b@,
            a@.len() == b@.len(),
            forall|j: int| 0 <= j < i ==> a@[j] == b@[j],
        decreases a@.len() - i,
    {
        if a[i] != other[i] {
            return false;
        }
        i += 1;
    }
    assert(a@ =~= b@);
    true
}

/// Whether `pat` stands in `s` at position `i`.
pub open spec fn occurs_at(s: Seq<char>, pat: Seq<char>, i: int) -> bool {
    0 <= i && i + pat.len() <= s.len() && s.subrange(i, i + pat.len()) == pat
}

/// The first position from `from` on at which `pat` stands in `s`.
pub open spec fn find_from(s: Seq<char>, pat: Seq<char>, from: int) -> Option<int>
    decreases s.len() - from,
{
    if from < 0 || from + pat.len() > s.len() {
        None
    } else if occurs_at(s, pat, from) {
        Some(from)
    } else if from >= s.len() {
        None
    } else {
        find_from(s, pat, from + 1)
    }
}

/// The first position at which `pat` stands in `s`.
pub open spec fn found(s: Seq<char>, pat: Seq<char>) -> Option<int> {
    find_from(s, pat, 0)
}

/// A search from `from` on finds an occurrence with none before it, and finds
/// nothing only where there is none.
pub proof fn lemma_find_from(s: Seq<char>, pat: Seq<char>, from: int)
    requires
        0 <= from,
    ensures
        match find_from(s, pat, from) {
            Some(i) => from <= i && occurs_at(s, pat, i) && forall|j: int|
                from <= j < i ==> !occurs_at(s, pat, j),
            None => forall|j: int| from <= j ==> !occurs_at(s, pat, j),
        },
    decreases s.len() - from,
{
    if from + pat.len() <= s.len() && !occurs_at(s, pat, from) && from < s.len() {
        lemma_find_from(s, pat, from + 1);
    }
}

/// An occurrence with none before it is the one that a search finds.
pub proof fn lemma_first_found(s: Seq<char>, pat: Seq<char>, at: int)
    requires
        occurs_at(s, pat, at),
        forall|j: int| 0 <= j < at ==> !occurs_at(s, pat, j),
    ensures
        found(s, pat) == Some(at),
{
    lemma_find_from(s, pat, 0);
}

fn occurs(s: &[char], pat: &[char], i: usize) -> (r: bool)
    requires
        i + pat@.len() <= s@.len(),
    ensures
        r == occurs_at(s@, pat@, i as int),
{
    let end: usize = s.len();
    let mut j: usize = 0;
    while j < pat.len()
        invariant
            i + pat@.len() <= s@.len() == end,
            j <= pat@.len(),
            forall|k: int| 0 <= k < j ==> s@[i + k] == pat@[k],
        decreases pat@.len() - j,
    {
        if s[i + j] != pat[j] {
            assert(s@.subrange(i as int, i + pat@.len())[j as int] != pat@[j as int]);
            return false;
        }
        j += 1;
    }
    assert(s@.subrange(i as int, i + pat@.len()) =~= pat@);
    true
}

/// Searches for `pat` in `s`.
pub fn find(s: &[char], pat: &[char]) -> (r: Option<usize>)
    ensures
        match r {
            Some(i) => found(s@, pat@) == Some(i as int),
            None => found(s@, pat@) is None,
        },
{
    if pat.len() > s.len() {
        return None;
    }
    let mut i: usize = 0;
    while i <= s.len() - pat.len()
        invariant
            pat@.len() <= s@.len(),
            i <= s@.len() - pat@.len() + 1,
            found(s@, pat@) == find_from(s@, pat@, i as int),
        decreases s@.len() - pat@.len() + 1 - i,
    {
        if occurs(s, pat, i) {
            return Some(i);
        }
        if i == s.len() {
            return None;
        }
        i += 1;
    }
    None
}

/// The first position from `from` on at which `s` holds the character `c`.
pub open spec fn char_from(s: Seq<char>, c: char, from: int) -> Option<int>
    decreases s.len() - from,
{
    if from < 0 || from >= s.len() {
        None
    } else if s[from] == c {
        Some(from)
    } else {
        char_from(s, c, from + 1)
    }
}

/// The first position at which `s` holds the character `c`.
pub open spec fn char_index(s: Seq<char>, c: char) -> Option<int> {
    char_from(s, c, 0)
}

/// A search for a character finds one with none before it, and finds nothing
/// only where there is none.
pub proof fn lemma_char_from(s: Seq<char>, c: char, from: int)
    requires
        0 <= from,
    ensures
        match char_from(s, c, from) {
            Some(i) => from <= i < s.len() && s[i] == c && forall|j: int|
                from <= j < i ==> s[j] != c,
            None => forall|j: int| from <= j < s.len() ==> s[j] != c,
        },
    decreases s.len() - from,
{
    if from < s.len() && s[from] != c {
        lemma_char_from(s, c, from + 1);
    }
}

/// Whether a text does not hold the character `c`.
pub open spec fn lacks(s: Seq<char>, c: char) -> bool {
    forall|i: int| 0 <= i < s.len() ==> (#[trigger] s[i]) != c
}

/// A text is cut at the first `c`, behind what does not hold it.
pub proof fn lemma_cut_behind(s: Seq<char>, c: char, rest: Seq<char>)
    requires
        lacks(s, c),
    ensures
        cut_at(s + seq![c] + rest, c) == Some((s, rest)),
        cut_at(s, c) is None,
        char_index(s, c) is None,
{
    let t = s + seq![c] + rest;
    lemma_char_from(t, c, 0);
    lemma_char_from(s, c, 0);
    assert(t[s.len() as int] == c);
    match char_index(t, c) {
        Some(i) => {
            if i < s.len() {
                assert(t[i] == s[i]);
            }
        },
        None => {},
    }
    assert(t.take(s.len() as int) =~= s);
    assert(t.skip(s.len() as int + 1) =~= rest);
}

/// Searches for the character `c` in `s`.
pub fn find_char(s: &[char], c: char) -> (r: Option<usize>)
    ensures
        match r {
            Some(i) => char_index(s@, c) == Some(i as int) && i < s@.len(),
            None => char_index(s@, c) is None,
        },
{
    let mut i: usize = 0;
    while i < s.len()
        invariant
            i <= s@.len(),
            char_index(s@, c) == char_from(s@, c, i as int),
        decreases s@.len() - i,
    {
        if s[i] == c {
            return Some(i);
        }
        i += 1;
    }
    None
}

/// The characters with the Unicode property White_Space.
pub open spec fn is_space(c: char) -> bool {
    ||| '\u{9}' <= c <= '\u{d}'
    ||| c == ' '
    ||| c == '\u{85}'
    ||| c == '\u{a0}'
    ||| c == '\u{1680}'
    ||| '\u{2000}' <= c <= '\u{200a}'
    ||| c == '\u{2028}'
    ||| c == '\u{2029}'
    ||| c == '\u{202f}'
    ||| c == '\u{205f}'
    ||| c == '\u{3000}'
}

/// Whether a character is white space.
pub fn space(c: char) -> (r: bool)
    ensures
        r == is_space(c),
{
    ('\u{9}' <= c && c <= '\u{d}') || c == ' ' || c == '\u{85}' || c == '\u{a0}' || c == '\u{1680}'
        || ('\u{2000}' <= c && c <= '\u{200a}') || c == '\u{2028}' || c == '\u{2029}' || c
        == '\u{202f}' || c == '\u{205f}' || c == '\u{3000}'
}

/// `s` without the white space that it starts with.
pub open spec fn trimmed_start(s: Seq<char>) -> Seq<char>
    decreases s.len(),
{
    if s.len() > 0 && is_space(s[0]) {
        trimmed_start(s.drop_first())
    } else {
        s
    }
}

/// `s` without the white space that it ends with.
pub open spec fn trimmed_end(s: Seq<char>) -> Seq<char>
    decreases s.len(),
{
    if s.len() > 0 && is_space(s.last()) {
        trimmed_end(s.drop_last())
    } else {
        s
    }
}

/// `s` without the white space at either end.
pub open spec fn trimmed(s: Seq<char>) -> Seq<char> {
    trimmed_end(trimmed_start(s))
}

/// Drops the white space that `s` starts with.
pub fn trim_start<'a>(s: &'a [char]) -> (r: &'a [char])
    ensures
        r@ == trimmed_start(s@),
{
    let mut i: usize = 0;
    assert(s@.skip(0) =~= s@);
    while i < s.len() && space(s[i])
        invariant
            i <= s@.len(),
            trimmed_start(s@) == trimmed_start(s@.skip(i as int)),
        decreases s@.len() - i,
    {
        assert(s@.skip(i as int).drop_first() =~= s@.skip(i + 1));
        i += 1;
    }
    assert(s@.skip(i as int) =~= s@.subrange(i as int, s@.len() as int));
    slice_subrange(s, i, s.len())
}

/// Drops the white space that `s` ends with.
pub fn trim_end<'a>(s: &'a [char]) -> (r: &'a [char])
    ensures
        r@ == trimmed_end(s@),
{
    let mut i: usize = s.len();
    assert(s@.take(s@.len() as int) =~= s@);
    while i > 0 && space(s[i - 1])
        invariant
            i <= s@.len(),
            trimmed_end(s@) == trimmed_end(s@.take(i as int)),
        decreases i,
    {
        assert(s@.take(i as int).drop_last() =~= s@.take(i - 1));
        i -= 1;
    }
    assert(s@.take(i as int) =~= s@.subrange(0, i as int));
    slice_subrange(s, 0, i)
}

/// Drops the white space at either end of `s`.
pub fn trim<'a>(s: &'a [char]) -> (r: &'a [char])
    ensures
        r@ == trimmed(s@),
{
    trim_end(trim_start(s))
}

/// `s` up to its first `c`, and what follows that `c`.
pub open spec fn cut_at(s: Seq<char>, c: char) -> Option<(Seq<char>, Seq<char>)> {
    match char_index(s, c) {
        Some(i) => Some((s.take(i), s.skip(i + 1))),
        None => None,
    }
}

/// Cuts `s` in two at its first `c`.
pub fn cut<'a>(s: &'a [char], c: char) -> (r: Option<(&'a [char], &'a [char])>)
    ensures
        match r {
            Some(p) => cut_at(s@, c) == Some((p.0@, p.1@)) && p.1@.len() < s@.len(),
            None => cut_at(s@, c) is None,
        },
{
    let end: usize = s.len();
    match find_char(s, c) {
        Some(i) => {
            let head = slice_subrange(s, 0, i);
            let tail = slice_subrange(s, i + 1, end);
            assert(head@ =~= s@.take(i as int));
            assert(tail@ =~= s@.skip(i + 1));
            Some((head, tail))
        },
        None => None,
    }
}

/// The parts of `s` between its `c`s: one more than there are `c`s.
pub open spec fn parts(s: Seq<char>, c: char) -> Seq<Seq<char>>
    decreases s.len(),
{
    match char_index(s, c) {
        Some(i) => {
            proof {
                lemma_char_from(s, c, 0);
            }
            seq![s.take(i)] + parts(s.skip(i + 1), c)
        },
        None => seq![s],
    }
}

/// A line without the carriage return that it ends with.
pub open spec fn without_cr(s: Seq<char>) -> Seq<char> {
    if s.len() > 0 && s.last() == '\r' {
        s.drop_last()
    } else {
        s
    }
}

/// The lines of a text. A line ends in a line feed, or in a carriage return
/// and a line feed; the ending of the last line may be missing.
pub open spec fn lines(s: Seq<char>) -> Seq<Seq<char>>
    decreases s.len(),
{
    if s.len() == 0 {
        seq![]
    } else {
        match char_index(s, '\n') {
            Some(i) => {
                proof {
                    lemma_char_from(s, '\n', 0);
                }
                seq![without_cr(s.take(i))] + lines(s.skip(i + 1))
            },
            None => seq![s],
        }
    }
}

/// Takes the first line off a text.
pub fn take_line<'a>(s: &'a [char]) -> (r: (&'a [char], &'a [char]))
    requires
        s@.len() > 0,
    ensures
        lines(s@) == seq![r.0@] + lines(r.1@),
        r.1@.len() < s@.len(),
{
    match cut(s, '\n') {
        Some((line, rest)) => {
            if line.len() > 0 && line[line.len() - 1] == '\r' {
                let bare = slice_subrange(line, 0, line.len() - 1);
                assert(bare@ =~= without_cr(line@));
                (bare, rest)
            } else {
                (line, rest)
            }
        },
        None => {
            let rest = slice_subrange(s, s.len(), s.len());
            assert(rest@ =~= seq![]);
            assert(seq![s@] + lines(rest@) =~= seq![s@]);
            (s, rest)
        },
    }
}

/// How many characters `s` starts with before white space or its end.
pub open spec fn word_len(s: Seq<char>) -> nat
    decreases s.len(),
{
    if s.len() == 0 || is_space(s[0]) {
        0
    } else {
        1 + word_len(s.drop_first())
    }
}

/// A word is no longer than its text, and not empty where no white space comes first.
pub proof fn lemma_word_len(s: Seq<char>)
    ensures
        word_len(s) <= s.len(),
        s.len() > 0 && !is_space(s[0]) ==> word_len(s) > 0,
    decreases s.len(),
{
    if s.len() > 0 {
        lemma_word_len(s.drop_first());
    }
}

/// What is left of a trimmed text is no longer, and starts with no white space.
pub proof fn lemma_trimmed_start(s: Seq<char>)
    ensures
        trimmed_start(s).len() <= s.len(),
        trimmed_start(s).len() > 0 ==> !is_space(trimmed_start(s)[0]),
    decreases s.len(),
{
    if s.len() > 0 && is_space(s[0]) {
        lemma_trimmed_start(s.drop_first());
    }
}

/// The words of `s`: its longest stretches without white space.
pub open spec fn words(s: Seq<char>) -> Seq<Seq<char>>
    decreases s.len(),
{
    let t = trimmed_start(s);
    if t.len() == 0 {
        seq![]
    } else {
        proof {
            lemma_trimmed_start(s);
            lemma_word_len(t);
        }
        seq![t.take(word_len(t) as int)] + words(t.skip(word_len(t) as int))
    }
}

/// The word of `s` at the given place, or nothing where it has fewer words.
pub open spec fn word(s: Seq<char>, i: int) -> Seq<char> {
    if i < words(s).len() {
        words(s)[i]
    } else {
        seq![]
    }
}

/// Takes the first word off a text, if it has one.
pub fn take_word<'a>(s: &'a [char]) -> (r: Option<(&'a [char], &'a [char])>)
    ensures
        match r {
            Some(p) => words(s@) == seq![p.0@] + words(p.1@),
            None => words(s@) == Seq::<Seq<char>>::empty(),
        },
{
    let t = trim_start(s);
    if t.len() == 0 {
        return None;
    }
    let mut n: usize = 0;
    assert(t@.skip(0) =~= t@);
    while n < t.len() && !space(t[n])
        invariant
            n <= t@.len(),
            word_len(t@) == n + word_len(t@.skip(n as int)),
        decreases t@.len() - n,
    {
        assert(t@.skip(n as int).drop_first() =~= t@.skip(n + 1));
        n += 1;
    }
    let head = slice_subrange(t, 0, n);
    let tail = slice_subrange(t, n, t.len());
    assert(head@ =~= t@.take(n as int));
    assert(tail@ =~= t@.skip(n as int));
    Some((head, tail))
}

/// The first two words of a text, empty where it has fewer.
pub fn two_words<'a>(s: &'a [char]) -> (r: (&'a [char], &'a [char]))
    ensures
        r.0@ == word(s@, 0),
        r.1@ == word(s@, 1),
{
    match take_word(s) {
        Some((first, rest)) => match take_word(rest) {
            Some((second, _)) => (first, second),
            None => {
                let none = slice_subrange(s, 0, 0);
                assert(none@ =~= seq![]);
                (first, none)
            },
        },
        None => {
            let none = slice_subrange(s, 0, 0);
            assert(none@ =~= seq![]);
            (none, none)
        },
    }
}

/// A letter from A to Z in lower case; any other character as it is.
pub open spec fn lower(c: char) -> char {
    if 'A' <= c <= 'Z' {
        (c as u32 + 32) as char
    } else {
        c
    }
}

/// Whether two texts are equal up to the case of the letters from A to Z.
pub open spec fn same_but_case(a: Seq<char>, b: Seq<char>) -> bool {
    a.len() == b.len() && forall|i: int| 0 <= i < a.len() ==> lower(#[trigger] a[i]) == lower(b[i])
}

fn to_lower(c: char) -> (r: char)
    ensures
        r == lower(c),
{
    if 'A' <= c && c <= 'Z' {
        (c as u8 + 32) as char
    } else {
        c
    }
}

/// Compares two texts without regard to the case of the letters from A to Z.
pub fn eq_but_case(a: &[char], b: &[char]) -> (r: bool)
    ensures
        r == same_but_case(a@, b@),
{
    if a.len() != b.len() {
        return false;
    }
    let mut i: usize = 0;
    while i < a.len()
        invariant
            i <= a@.len() == b@.len(),
            forall|j: int| 0 <= j < i ==> lower(#[trigger] a@[j]) == lower(b@[j]),
        decreases a@.len() - i,
    {
        if to_lower(a[i]) != to_lower(b[i]) {
            assert(lower(a@[i as int]) != lower(b@[i as int]));
            return false;
        }
        i += 1;
    }
    true
}

/// The value of the first of the lines that is headed by `name`, up to case.
/// The search ends at a line without a colon.
pub open spec fn header_in(ls: Seq<Seq<char>>, name: Seq<char>) -> Option<Seq<char>>
    decreases ls.len(),
{
    if ls.len() == 0 {
        None
    } else {
        match cut_at(ls[0], ':') {
            None => None,
            Some((key, value)) => if same_but_case(key, name) {
                Some(trimmed(value))
            } else {
                header_in(ls.drop_first(), name)
            },
        }
    }
}

/// Looks up a header field in the lines of a request, the first line included.
/// A line without a colon ends the search.
pub fn header_field(request: &str, name: &str) -> (r: Option<String>)
    ensures
        match r {
            Some(v) => header_in(lines(request@), name@) == Some(v@),
            None => header_in(lines(request@), name@) is None,
        },
{
    let text = chars_of(request);
    let wanted = chars_of(name);
    let mut rest: &[char] = text.as_slice();
    while rest.len() > 0
        invariant
            wanted@ == name@,
            header_in(lines(request@), name@) == header_in(lines(rest@), name@),
        decreases rest@.len(),
    {
        let (line, tail) = take_line(rest);
        assert(lines(rest@).drop_first() =~= lines(tail@));
        match cut(line, ':') {
            None => {
                return None;
            },
            Some((key, value)) => {
                if eq_but_case(key, wanted.as_slice()) {
                    return Some(string_of(trim(value)));
                }
            },
        }
        rest = tail;
    }
    None
}

/// The first line of a request.
pub open spec fn first_line_of(request: Seq<char>) -> Seq<char> {
    if lines(request).len() > 0 {
        lines(request)[0]
    } else {
        seq![]
    }
}

/// The method of a request: the first word of its first line.
pub open spec fn method_of(request: Seq<char>) -> Seq<char> {
    word(first_line_of(request), 0)
}

/// The path of a request: the second word of its first line.
pub open spec fn path_of(request: Seq<char>) -> Seq<char> {
    word(first_line_of(request), 1)
}

/// Takes the method and the path out of a request.
pub fn first_line<'a>(request: &'a [char]) -> (r: (&'a [char], &'a [char]))
    ensures
        r.0@ == method_of(request@),
        r.1@ == path_of(request@),
{
    let line: &[char] = if request.len() > 0 {
        take_line(request).0
    } else {
        request
    };
    assert(line@ =~= first_line_of(request@));
    two_words(line)
}

/// A trimmed text is empty just where the text is all white space.
pub proof fn lemma_trimmed_blank(s: Seq<char>)
    ensures
        (trimmed(s).len() == 0) == (forall|i: int| 0 <= i < s.len() ==> is_space(#[trigger] s[i])),
{
    let t = trimmed_start(s);
    lemma_trimmed_start_parts(s);
    lemma_trimmed_end_parts(t);
    let k = s.len() - t.len();
    if t.len() == 0 {
        assert forall|i: int| 0 <= i < s.len() implies is_space(#[trigger] s[i]) by {
            assert(s.take(k)[i] == s[i]);
        }
    } else {
        assert(!is_space(t[0]));
        assert(t[0] == s[k]);
        if trimmed(s).len() == 0 {
            assert(t.skip(0)[0] == t[0]);
        }
    }
}

pub proof fn lemma_trimmed_start_parts(s: Seq<char>)
    ensures
        trimmed_start(s).len() <= s.len(),
        trimmed_start(s) == s.skip(s.len() - trimmed_start(s).len()),
        forall|i: int|
            0 <= i < s.len() - trimmed_start(s).len() ==> is_space(
                #[trigger] s.take(s.len() - trimmed_start(s).len())[i],
            ),
        trimmed_start(s).len() > 0 ==> !is_space(trimmed_start(s)[0]),
    decreases s.len(),
{
    if s.len() > 0 && is_space(s[0]) {
        let u = s.drop_first();
        lemma_trimmed_start_parts(u);
        let k = s.len() - trimmed_start(s).len();
        assert(s.skip(k) =~= u.skip(k - 1));
        assert forall|i: int| 0 <= i < k implies is_space(#[trigger] s.take(k)[i]) by {
            if i > 0 {
                assert(u.take(k - 1)[i - 1] == s[i]);
            }
        }
    } else {
        assert(s.skip(0) =~= s);
    }
}

pub proof fn lemma_trimmed_end_parts(s: Seq<char>)
    ensures
        trimmed_end(s).len() <= s.len(),
        trimmed_end(s) == s.take(trimmed_end(s).len() as int),
        forall|i: int|
            0 <= i < s.len() - trimmed_end(s).len() ==> is_space(
                #[trigger] s.skip(trimmed_end(s).len() as int)[i],
            ),
        trimmed_end(s).len() > 0 ==> !is_space(trimmed_end(s).last()),
    decreases s.len(),
{
    if s.len() > 0 && is_space(s.last()) {
        let u = s.drop_last();
        lemma_trimmed_end_parts(u);
        let k = trimmed_end(s).len() as int;
        assert(s.take(k) =~= u.take(k));
        assert forall|i: int| 0 <= i < s.len() - k implies is_space(#[trigger] s.skip(k)[i]) by {
            if i < u.len() - k {
                assert(u.skip(k)[i] == s.skip(k)[i]);
            }
        }
    } else {
        assert(s.take(s.len() as int) =~= s);
    }
}

/// Trimming takes white space off both ends and nothing else: the text is white
/// space, what is left, and white space, and what is left neither starts nor ends
/// with it.
pub proof fn trimming_takes_white_space_off_the_ends(a: Seq<char>, s: Seq<char>, b: Seq<char>)
    requires
        forall|i: int| 0 <= i < a.len() ==> is_space(#[trigger] a[i]),
        forall|i: int| 0 <= i < b.len() ==> is_space(#[trigger] b[i]),
        s.len() > 0 ==> !is_space(s[0]) && !is_space(s.last()),
        s.len() == 0 ==> b.len() == 0,
    ensures
        trimmed(a + s + b) == s,
        trimmed_start(a + s + b) == s + b,
{
    lemma_space_in_front(a, s + b);
    assert(a + s + b =~= a + (s + b));
    assert(trimmed_start(s + b) == s + b) by {
        if s.len() > 0 {
            assert((s + b)[0] == s[0]);
        }
    }
    lemma_space_behind(s, b);
}

pub proof fn lemma_space_in_front(a: Seq<char>, s: Seq<char>)
    requires
        forall|i: int| 0 <= i < a.len() ==> is_space(#[trigger] a[i]),
    ensures
        trimmed_start(a + s) == trimmed_start(s),
    decreases a.len(),
{
    if a.len() == 0 {
        assert(a + s =~= s);
    } else {
        assert((a + s)[0] == a[0]);
        assert((a + s).drop_first() =~= a.drop_first() + s);
        assert forall|i: int| 0 <= i < a.drop_first().len() implies is_space(
            #[trigger] a.drop_first()[i],
        ) by {
            assert(is_space(a[i + 1]));
        }
        lemma_space_in_front(a.drop_first(), s);
    }
}

proof fn lemma_space_behind(s: Seq<char>, b: Seq<char>)
    requires
        forall|i: int| 0 <= i < b.len() ==> is_space(#[trigger] b[i]),
        s.len() > 0 ==> !is_space(s.last()),
    ensures
        trimmed_end(s + b) == s,
    decreases b.len(),
{
    if b.len() == 0 {
        assert(s + b =~= s);
    } else {
        assert((s + b).last() == b[b.len() - 1]);
        assert((s + b).drop_last() =~= s + b.drop_last());
        assert forall|i: int| 0 <= i < b.drop_last().len() implies is_space(
            #[trigger] b.drop_last()[i],
        ) by {
            assert(is_space(b[i]));
        }
        lemma_space_behind(s, b.drop_last());
    }
}

/// A search gives the first place from which on all characters of the pattern
/// stand in the text, and none just where there is no such place.
pub proof fn searches_give_the_first_place(s: Seq<char>, pat: Seq<char>)
    ensures
        match found(s, pat) {
            Some(i) => {
                &&& 0 <= i
                &&& i + pat.len() <= s.len()
                &&& forall|k: int| 0 <= k < pat.len() ==> s[i + k] == #[trigger] pat[k]
                &&& forall|j: int|
                    0 <= j < i ==> #[trigger] s.subrange(j, j + pat.len()) != pat
            },
            None => forall|j: int|
                0 <= j && j + pat.len() <= s.len() ==> #[trigger] s.subrange(j, j + pat.len())
                    != pat,
        },
{
    lemma_find_from(s, pat, 0);
    match found(s, pat) {
        Some(i) => {
            assert forall|k: int| 0 <= k < pat.len() implies s[i + k] == #[trigger] pat[k] by {
                assert(s.subrange(i, i + pat.len())[k] == s[i + k]);
            }
            assert forall|j: int| 0 <= j < i implies #[trigger] s.subrange(j, j + pat.len())
                != pat by {
                assert(!occurs_at(s, pat, j));
            }
        },
        None => {
            assert forall|j: int| 0 <= j && j + pat.len() <= s.len() implies #[trigger] s.subrange(
                j,
                j + pat.len(),
            ) != pat by {
                assert(!occurs_at(s, pat, j));
            }
        },
    }
}

/// Lines with an ending each: a carriage return and a line feed.
pub open spec fn with_line_ends(ls: Seq<Seq<char>>) -> Seq<char>
    decreases ls.len(),
{
    if ls.len() == 0 {
        seq![]
    } else {
        ls[0] + seq!['\r', '\n'] + with_line_ends(ls.drop_first())
    }
}

/// The first line of a text that has an ending is told apart from the rest.
pub proof fn lemma_line_off(line: Seq<char>, rest: Seq<char>)
    requires
        lacks(line, '\n'),
    ensures
        lines(line + seq!['\r', '\n'] + rest) == seq![line] + lines(rest),
{
    let s = line + seq!['\r', '\n'] + rest;
    let head = line + seq!['\r'];
    assert forall|i: int| 0 <= i < head.len() implies (#[trigger] head[i]) != '\n' by {
        if i < line.len() {
            assert(head[i] == line[i]);
        }
    }
    assert(s =~= head + seq!['\n'] + rest);
    lemma_cut_behind(head, '\n', rest);
    assert(head.drop_last() =~= line);
}

/// The lines of a text that was made of lines are these lines, and then those of
/// what follows them.
pub proof fn lines_are_told_apart(ls: Seq<Seq<char>>, rest: Seq<char>)
    requires
        forall|i: int| 0 <= i < ls.len() ==> lacks(#[trigger] ls[i], '\n'),
    ensures
        lines(with_line_ends(ls) + rest) == ls + lines(rest),
    decreases ls.len(),
{
    if ls.len() == 0 {
        assert(with_line_ends(ls) + rest =~= rest);
        assert(ls + lines(rest) =~= lines(rest));
    } else {
        let more = ls.drop_first();
        assert forall|i: int| 0 <= i < more.len() implies lacks(#[trigger] more[i], '\n') by {
            assert(lacks(ls[i + 1], '\n'));
        }
        lines_are_told_apart(more, rest);
        let tail = with_line_ends(more) + rest;
        assert(lacks(ls[0], '\n'));
        lemma_line_off(ls[0], tail);
        assert(with_line_ends(ls) + rest =~= ls[0] + seq!['\r', '\n'] + tail);
        assert(seq![ls[0]] + (more + lines(rest)) =~= ls + lines(rest));
    }
}

/// Lines one behind the other are those of both.
pub proof fn lemma_line_ends_add(a: Seq<Seq<char>>, b: Seq<Seq<char>>)
    ensures
        with_line_ends(a + b) == with_line_ends(a) + with_line_ends(b),
    decreases a.len(),
{
    if a.len() == 0 {
        assert(a + b =~= b);
        assert(with_line_ends(a) + with_line_ends(b) =~= with_line_ends(b));
    } else {
        lemma_line_ends_add(a.drop_first(), b);
        assert((a + b).drop_first() =~= a.drop_first() + b);
        assert(with_line_ends(a + b) =~= with_line_ends(a) + with_line_ends(b));
    }
}

/// One line with its ending.
pub proof fn lemma_line_end(line: Seq<char>)
    ensures
        with_line_ends(seq![line]) == line + seq!['\r', '\n'],
{
    assert(seq![line].drop_first() =~= seq![]);
    assert(with_line_ends(seq![line].drop_first()) =~= seq![]);
    assert(with_line_ends(seq![line]) =~= line + seq!['\r', '\n']);
}

/// A text without a line feed is one line, unless it is empty.
pub proof fn the_last_line_needs_no_ending(line: Seq<char>)
    requires
        lacks(line, '\n'),
    ensures
        lines(line) == (if line.len() == 0 {
            seq![]
        } else {
            seq![line]
        }),
{
    lemma_cut_behind(line, '\n', seq![]);
}

/// Whether a text holds no white space.
pub open spec fn is_word(s: Seq<char>) -> bool {
    s.len() > 0 && forall|i: int| 0 <= i < s.len() ==> !is_space(#[trigger] s[i])
}

proof fn lemma_word_run(w: Seq<char>, rest: Seq<char>)
    requires
        forall|i: int| 0 <= i < w.len() ==> !is_space(#[trigger] w[i]),
        rest.len() > 0 ==> is_space(rest[0]),
    ensures
        word_len(w + rest) == w.len(),
    decreases w.len(),
{
    if w.len() == 0 {
        assert(w + rest =~= rest);
    } else {
        assert(!is_space(w[0]));
        assert((w + rest)[0] == w[0]);
        assert((w + rest).drop_first() =~= w.drop_first() + rest);
        assert forall|i: int| 0 <= i < w.drop_first().len() implies !is_space(
            #[trigger] w.drop_first()[i],
        ) by {
            assert(!is_space(w[i + 1]));
        }
        lemma_word_run(w.drop_first(), rest);
    }
}

/// Words with white space between them are told apart.
pub proof fn words_are_told_apart(w: Seq<char>, rest: Seq<char>)
    requires
        is_word(w),
        rest.len() > 0 ==> is_space(rest[0]),
    ensures
        words(w + rest) == seq![w] + words(rest),
        words(w) == seq![w],
{
    lemma_word_run(w, rest);
    lemma_word_run(w, seq![]);
    assert(w + Seq::<char>::empty() =~= w);
    assert((w + rest)[0] == w[0]);
    assert(!is_space(w[0]));
    assert((w + rest).take(w.len() as int) =~= w);
    assert((w + rest).skip(w.len() as int) =~= rest);
    assert(w.take(w.len() as int) =~= w);
    assert(w.skip(w.len() as int) =~= seq![]);
    assert(words(Seq::<char>::empty()) =~= seq![]);
    assert(seq![w] + words(w.skip(w.len() as int)) =~= seq![w]);
}

/// White space in front of words does not count.
pub proof fn lemma_words_behind_space(c: char, rest: Seq<char>)
    requires
        is_space(c),
    ensures
        words(seq![c] + rest) == words(rest),
{
    assert((seq![c] + rest).drop_first() =~= rest);
    assert(trimmed_start(seq![c] + rest) == trimmed_start(rest));
}

proof fn lemma_first_line_cut(head: Seq<char>, more: Seq<char>) -> (tail: Seq<char>)
    requires
        head.len() > 0,
        lacks(head, '\n'),
        head.last() != '\r',
        more.len() > 0 ==> is_space(more[0]),
    ensures
        first_line_of(head + more) == head + tail,
        tail.len() > 0 ==> is_space(tail[0]),
{
    let s = head + more;
    lemma_char_from(s, '\n', 0);
    let n = head.len() as int;
    match char_index(s, '\n') {
        Some(i) => {
            if i < n {
                assert(s[i] == head[i]);
            }
            let k = i - n;
            let cut = more.take(k);
            assert(s.take(i) =~= head + cut);
            let line = without_cr(s.take(i));
            assert(lines(s)[0] == line);
            if k == 0 {
                assert(s.take(i) =~= head);
                assert(head =~= head + Seq::<char>::empty());
                seq![]
            } else if cut.last() == '\r' {
                assert(s.take(i).last() == cut.last());
                assert(line =~= head + cut.drop_last());
                cut.drop_last()
            } else {
                assert(s.take(i).last() == cut.last());
                cut
            }
        },
        None => {
            more
        },
    }
}

proof fn lemma_word_has_no_line_end(w: Seq<char>)
    requires
        is_word(w),
    ensures
        lacks(w, '\n'),
        w.last() != '\r',
{
    assert forall|i: int| 0 <= i < w.len() implies (#[trigger] w[i]) != '\n' by {
        assert(!is_space(w[i]));
    }
    assert(!is_space(w[w.len() - 1]));
}

/// The method of a request is what stands before the first blank, and its path
/// what stands behind it, up to the next white space or the end.
pub proof fn requests_name_method_and_path(method: Seq<char>, path: Seq<char>, more: Seq<char>)
    requires
        is_word(method),
        is_word(path),
        more.len() > 0 ==> is_space(more[0]),
    ensures
        method_of(method + seq![' '] + path + more) == method,
        path_of(method + seq![' '] + path + more) == path,
{
    let head = method + seq![' '] + path;
    lemma_word_has_no_line_end(method);
    lemma_word_has_no_line_end(path);
    assert forall|i: int| 0 <= i < head.len() implies (#[trigger] head[i]) != '\n' by {
        if i < method.len() {
            assert(head[i] == method[i]);
        } else if i > method.len() {
            assert(head[i] == path[i - method.len() - 1]);
        }
    }
    assert(head.last() == path.last());
    let tail = lemma_first_line_cut(head, more);
    let line = first_line_of(head + more);
    assert(line == head + tail);
    assert(line =~= method + (seq![' '] + (path + tail)));
    words_are_told_apart(method, seq![' '] + (path + tail));
    lemma_words_behind_space(' ', path + tail);
    words_are_told_apart(path, tail);
}

/// Two texts are equal up to case just where they have equal characters at all
/// places, or letters from A to Z that differ in case alone.
pub proof fn case_alone_makes_no_difference(a: Seq<char>, b: Seq<char>)
    ensures
        same_but_case(a, b) <==> a.len() == b.len() && forall|i: int|
            0 <= i < a.len() ==> {
                ||| #[trigger] a[i] == b[i]
                ||| 'A' <= a[i] <= 'Z' && b[i] as int == a[i] as int + 32
                ||| 'A' <= b[i] <= 'Z' && a[i] as int == b[i] as int + 32
            },
{
    if same_but_case(a, b) {
        assert forall|i: int| 0 <= i < a.len() implies {
            ||| #[trigger] a[i] == b[i]
            ||| 'A' <= a[i] <= 'Z' && b[i] as int == a[i] as int + 32
            ||| 'A' <= b[i] <= 'Z' && a[i] as int == b[i] as int + 32
        } by {
            assert(lower(a[i]) == lower(b[i]));
        }
    }
    if a.len() == b.len() && forall|i: int|
        0 <= i < a.len() ==> {
            ||| #[trigger] a[i] == b[i]
            ||| 'A' <= a[i] <= 'Z' && b[i] as int == a[i] as int + 32
            ||| 'A' <= b[i] <= 'Z' && a[i] as int == b[i] as int + 32
        } {
        assert forall|i: int| 0 <= i < a.len() implies lower(#[trigger] a[i]) == lower(b[i]) by {
            assert(a[i] == b[i] || a[i] != b[i]);
        }
    }
}

/// A field of a request is found by its name in any case, behind fields of other
/// names, and its value is told without the white space round it.
pub proof fn header_fields_are_found(
    keys: Seq<Seq<char>>,
    values: Seq<Seq<char>>,
    name: Seq<char>,
    wanted: Seq<char>,
    value: Seq<char>,
    after: Seq<Seq<char>>,
)
    requires
        keys.len() == values.len(),
        forall|i: int|
            0 <= i < keys.len() ==> lacks(#[trigger] keys[i], ':') && !same_but_case(
                keys[i],
                wanted,
            ),
        lacks(name, ':'),
        same_but_case(name, wanted),
    ensures
        header_in(
            Seq::new(keys.len(), |i: int| keys[i] + seq![':'] + values[i]) + seq![
                name + seq![':'] + value,
            ] + after,
            wanted,
        ) == Some(trimmed(value)),
    decreases keys.len(),
{
    let front = Seq::new(keys.len(), |i: int| keys[i] + seq![':'] + values[i]);
    let ls = front + seq![name + seq![':'] + value] + after;
    if keys.len() == 0 {
        assert(ls[0] == name + seq![':'] + value);
        lemma_cut_behind(name, ':', value);
    } else {
        let k = keys.drop_first();
        let v = values.drop_first();
        let rest = Seq::new(k.len(), |i: int| k[i] + seq![':'] + v[i]) + seq![
            name + seq![':'] + value,
        ] + after;
        assert forall|i: int| 0 <= i < k.len() implies lacks(#[trigger] k[i], ':')
            && !same_but_case(k[i], wanted) by {
            assert(k[i] == keys[i + 1]);
        }
        header_fields_are_found(k, v, name, wanted, value, after);
        assert(ls[0] == keys[0] + seq![':'] + values[0]);
        assert(lacks(keys[0], ':'));
        lemma_cut_behind(keys[0], ':', values[0]);
        assert(ls.drop_first() =~= rest);
    }
}

/// A line without a colon ends the search for a field.
pub proof fn a_line_without_a_colon_ends_the_search(line: Seq<char>, after: Seq<Seq<char>>, wanted: Seq<char>)
    requires
        lacks(line, ':'),
    ensures
        header_in(seq![line] + after, wanted) is None,
{
    lemma_cut_behind(line, ':', seq![]);
    assert((seq![line] + after)[0] == line);
}

/// Cutting a text at a character gives parts without it which, with the character
/// between them, make up the text.
pub proof fn parts_make_up_the_text(first: Seq<char>, c: char, rest: Seq<char>)
    requires
        lacks(first, c),
    ensures
        parts(first + seq![c] + rest, c) == seq![first] + parts(rest, c),
        parts(first, c) == seq![first],
{
    lemma_cut_behind(first, c, rest);
}

/// White space is what Unicode counts as such: the controls from tab to carriage
/// return, the space, the next line, and the spaces and separators of other scripts.
pub proof fn white_space_is_that_of_unicode(c: char)
    ensures
        is_space(c) <==> {
            let n = c as int;
            ||| n == 9 || n == 10 || n == 11 || n == 12 || n == 13 || n == 32
            ||| n == 0x85 || n == 0xa0 || n == 0x1680
            ||| 0x2000 <= n <= 0x200a
            ||| n == 0x2028 || n == 0x2029 || n == 0x202f || n == 0x205f || n == 0x3000
        },
{
}

/// A line may end in a line feed alone.
pub proof fn lines_may_end_in_a_line_feed(line: Seq<char>, rest: Seq<char>)
    requires
        lacks(line, '\n'),
        line.len() > 0 ==> line.last() != '\r',
    ensures
        lines(line + seq!['\n'] + rest) == seq![line] + lines(rest),
{
    lemma_cut_behind(line, '\n', rest);
}

/// The words of a text are those that stand between white space, however much.
pub proof fn white_space_is_no_word(blank: Seq<char>, s: Seq<char>)
    requires
        forall|i: int| 0 <= i < blank.len() ==> is_space(#[trigger] blank[i]),
    ensures
        words(blank + s) == words(s),
        words(blank).len() == 0,
{
    lemma_space_in_front(blank, s);
    lemma_space_in_front(blank, seq![]);
    assert(blank + Seq::<char>::empty() =~= blank);
}

} // verus!
