//! The bits of JSON that the device and the web page speak: fields are looked
//! up by name in the text, strings are escaped and unescaped.
use vstd::prelude::*;
use vstd::slice::slice_subrange;

use crate::number;
use crate::number::{parse_number, take_digits};
use crate::text;
use crate::text::{chars_of, cut, find, is_text, string_of, trim, trim_start};

verus! {

broadcast use vstd::string::group_string_axioms;

/// A character as it is written in a JSON string.
pub open spec fn escaped_char(c: char) -> Seq<char> {
    if c == '\\' {
        seq!['\\', '\\']
    } else if c == '"' {
        seq!['\\', '"']
    } else if c == '\n' {
        seq!['\\', 'n']
    } else if c == '\r' {
        seq!['\\', 'r']
    } else {
        seq![c]
    }
}

/// A text as it is written in a JSON string.
pub open spec fn escaped(s: Seq<char>) -> Seq<char>
    decreases s.len(),
{
    if s.len() == 0 {
        seq![]
    } else {
        escaped(s.drop_last()) + escaped_char(s.last())
    }
}

/// Whether a text is written in a JSON string as it is.
pub open spec fn plain(s: Seq<char>) -> bool {
    forall|i: int|
        0 <= i < s.len() ==> (#[trigger] s[i]) != '\\' && s[i] != '"' && s[i] != '\n' && s[i]
            != '\r'
}

/// Escapes a text for a JSON string.
pub fn json_escape(input: &str) -> (r: String)
    ensures
        r@ == escaped(input@),
{
    let s = chars_of(input);
    let mut out = String::new();
    let mut i: usize = 0;
    assert(s@.take(0) =~= seq![]);
    while i < s.len()
        invariant
            i <= s@.len(),
            out@ == escaped(s@.take(i as int)),
        decreases s@.len() - i,
    {
        let c = s[i];
        let ghost before = out@;
        if c == '\\' {
            out.push('\\');
            out.push('\\');
        } else if c == '"' {
            out.push('\\');
            out.push('"');
        } else if c == '\n' {
            out.push('\\');
            out.push('n');
        } else if c == '\r' {
            out.push('\\');
            out.push('r');
        } else {
            out.push(c);
        }
        assert(out@ =~= before + escaped_char(c));
        assert(s@.take(i + 1).drop_last() =~= s@.take(i as int));
        i += 1;
    }
    assert(s@.take(i as int) =~= s@);
    out
}

/// Appends a text as the contents of a JSON string.
pub fn push_escaped(out: &mut String, s: &str)
    ensures
        final(out)@ == old(out)@ + escaped(s@),
{
    let e = json_escape(s);
    out.append(e.as_str());
}

/// A plain text is not changed by escaping.
pub proof fn lemma_plain(s: Seq<char>)
    requires
        plain(s),
    ensures
        escaped(s) == s,
    decreases s.len(),
{
    if s.len() > 0 {
        assert forall|i: int| 0 <= i < s.drop_last().len() implies (#[trigger] s.drop_last()[i])
            != '\\' && s.drop_last()[i] != '"' && s.drop_last()[i] != '\n' && s.drop_last()[i]
            != '\r' by {
            assert(s[i] == s.drop_last()[i]);
        }
        lemma_plain(s.drop_last());
        assert(s[s.len() - 1] == s.last());
        assert(s.drop_last() + seq![s.last()] =~= s);
    } else {
        assert(s =~= seq![]);
    }
}

/// The text of a `bool`.
pub open spec fn bool_text(value: bool) -> Seq<char> {
    if value {
        "true"@
    } else {
        "false"@
    }
}

/// A `bool` in JSON.
pub fn bool_json(value: bool) -> (r: &'static str)
    ensures
        r@ == bool_text(value),
{
    if value {
        "true"
    } else {
        "false"
    }
}

/// What follows the first occurrence of `needle`.
pub open spec fn behind(s: Seq<char>, needle: Seq<char>) -> Option<Seq<char>> {
    match text::found(s, needle) {
        Some(i) => Some(s.skip(i + needle.len())),
        None => None,
    }
}

fn after<'a>(s: &'a [char], needle: &[char]) -> (r: Option<&'a [char]>)
    ensures
        match r {
            Some(t) => behind(s@, needle@) == Some(t@),
            None => behind(s@, needle@) is None,
        },
{
    match find(s, needle) {
        Some(i) => {
            let len: usize = s.len();
            proof {
                text::lemma_find_from(s@, needle@, 0);
            }
            let t = slice_subrange(s, i + needle.len(), len);
            assert(t@ =~= s@.skip(i + needle@.len()));
            Some(t)
        },
        None => None,
    }
}

/// What a field with a string begins with, when written without blanks.
pub open spec fn string_field(key: Seq<char>) -> Seq<char> {
    "\""@ + key + "\":\""@
}

/// What a field begins with, when written without blanks.
pub open spec fn field(key: Seq<char>) -> Seq<char> {
    "\""@ + key + "\":"@
}

/// The name of a field, as it is written.
pub open spec fn name(key: Seq<char>) -> Seq<char> {
    "\""@ + key + "\""@
}

fn needle(key: &str, end: &str) -> (r: Vec<char>)
    ensures
        r@ == "\""@ + key@ + end@,
{
    let mut s = "\"".to_owned();
    s.append(key);
    s.append(end);
    chars_of(s.as_str())
}

/// The string in the first field of this name: all up to the next quote.
pub open spec fn string_of_field(json: Seq<char>, key: Seq<char>) -> Option<Seq<char>> {
    match behind(json, string_field(key)) {
        Some(rest) => match text::cut_at(rest, '"') {
            Some((value, _)) => Some(value),
            None => None,
        },
        None => None,
    }
}

/// Looks up a string field of a message from the device, which is written
/// without blanks. Escapes are kept as they are.
pub fn json_get_string(json: &str, key: &str) -> (r: Option<String>)
    ensures
        match r {
            Some(v) => string_of_field(json@, key@) == Some(v@),
            None => string_of_field(json@, key@) is None,
        },
{
    let s = chars_of(json);
    let n = needle(key, "\":\"");
    match after(s.as_slice(), n.as_slice()) {
        Some(rest) => match cut(rest, '"') {
            Some((value, _)) => Some(string_of(value)),
            None => None,
        },
        None => None,
    }
}

/// The number in the first field of this name.
pub open spec fn number_of_field(json: Seq<char>, key: Seq<char>) -> Option<nat> {
    match behind(json, field(key)) {
        Some(rest) => number::parsed(number::leading_digits(rest), u64::MAX as nat),
        None => None,
    }
}

/// Looks up a number field of a message from the device, which is written
/// without blanks.
pub fn json_get_u64(json: &str, key: &str) -> (r: Option<u64>)
    ensures
        match r {
            Some(v) => number_of_field(json@, key@) == Some(v as nat),
            None => number_of_field(json@, key@) is None,
        },
{
    let s = chars_of(json);
    let n = needle(key, "\":");
    match after(s.as_slice(), n.as_slice()) {
        Some(rest) => parse_number(take_digits(rest), u64::MAX),
        None => None,
    }
}

/// Whether a message from the device is about this operation of this module.
pub open spec fn is_operation(json: Seq<char>, module: Seq<char>, operation: Seq<char>) -> bool {
    string_of_field(json, "MODULE"@) == Some(module) && string_of_field(json, "OPERATION"@)
        == Some(operation)
}

/// Whether a message from the device is about the given operation.
pub fn json_matches_operation(json: &str, module: &str, operation: &str) -> (r: bool)
    ensures
        r == is_operation(json@, module@, operation@),
{
    match json_get_string(json, "MODULE") {
        Some(m) => {
            if !is_text(chars_of(m.as_str()).as_slice(), module) {
                return false;
            }
            match json_get_string(json, "OPERATION") {
                Some(o) => is_text(chars_of(o.as_str()).as_slice(), operation),
                None => false,
            }
        },
        None => false,
    }
}

/// What follows the name of a field and the next colon, without leading blanks.
pub open spec fn value_behind(json: Seq<char>, key: Seq<char>) -> Option<Seq<char>> {
    match behind(json, name(key)) {
        Some(rest) => match text::cut_at(rest, ':') {
            Some((_, value)) => Some(text::trimmed_start(value)),
            None => None,
        },
        None => None,
    }
}

/// The character that a backslash and `c` stand for.
pub open spec fn unescaped_char(c: char) -> char {
    if c == 'n' {
        '\n'
    } else if c == 'r' {
        '\r'
    } else if c == 't' {
        '\t'
    } else {
        c
    }
}

/// The contents of a JSON string up to its closing quote; none without one.
/// `after_backslash` tells whether a backslash came just before.
pub open spec fn unescaped(s: Seq<char>, after_backslash: bool) -> Option<Seq<char>>
    decreases s.len(),
{
    if s.len() == 0 {
        None
    } else if after_backslash {
        match unescaped(s.drop_first(), false) {
            Some(t) => Some(seq![unescaped_char(s[0])] + t),
            None => None,
        }
    } else if s[0] == '\\' {
        unescaped(s.drop_first(), true)
    } else if s[0] == '"' {
        Some(seq![])
    } else {
        match unescaped(s.drop_first(), false) {
            Some(t) => Some(seq![s[0]] + t),
            None => None,
        }
    }
}

/// The string in the first field of this name.
pub open spec fn text_of_field(json: Seq<char>, key: Seq<char>) -> Option<Seq<char>> {
    match value_behind(json, key) {
        Some(value) => if value.len() > 0 && value[0] == '"' {
            unescaped(value.skip(1), false)
        } else {
            None
        },
        None => None,
    }
}

fn value_of<'a>(s: &'a [char], key: &str) -> (r: Option<&'a [char]>)
    ensures
        match r {
            Some(v) => value_behind(s@, key@) == Some(v@),
            None => value_behind(s@, key@) is None,
        },
{
    let n = needle(key, "\"");
    match after(s, n.as_slice()) {
        Some(rest) => match cut(rest, ':') {
            Some((_, value)) => Some(trim_start(value)),
            None => None,
        },
        None => None,
    }
}

fn unescape(s: &[char]) -> (r: Option<String>)
    ensures
        match r {
            Some(t) => unescaped(s@, false) == Some(t@),
            None => unescaped(s@, false) is None,
        },
{
    let mut out = String::new();
    let mut after_backslash = false;
    let mut i: usize = 0;
    proof {
        assert(s@.skip(0) =~= s@);
        if let Some(t) = unescaped(s@, false) {
            assert(out@ + t =~= t);
        }
    }
    while i < s.len()
        invariant
            i <= s@.len(),
            match unescaped(s@.skip(i as int), after_backslash) {
                Some(t) => unescaped(s@, false) == Some(out@ + t),
                None => unescaped(s@, false) is None,
            },
        decreases s@.len() - i,
    {
        let c = s[i];
        let ghost before = out@;
        assert(s@.skip(i as int).drop_first() =~= s@.skip(i + 1));
        assert(s@.skip(i as int)[0] == c);
        let ghost rest = unescaped(s@.skip(i + 1), false);
        if after_backslash {
            let plain = if c == 'n' {
                '\n'
            } else if c == 'r' {
                '\r'
            } else if c == 't' {
                '\t'
            } else {
                c
            };
            out.push(plain);
            after_backslash = false;
            proof {
                if let Some(t) = rest {
                    assert(before + (seq![plain] + t) =~= out@ + t);
                }
            }
        } else if c == '\\' {
            after_backslash = true;
        } else if c == '"' {
            assert(before + Seq::<char>::empty() =~= before);
            return Some(out);
        } else {
            out.push(c);
            proof {
                if let Some(t) = rest {
                    assert(before + (seq![c] + t) =~= out@ + t);
                }
            }
        }
        i += 1;
    }
    None
}

/// Looks up a string field. Blanks round the colon are skipped, escapes resolved.
pub fn json_string(json: &str, key: &str) -> (r: Option<String>)
    ensures
        match r {
            Some(v) => text_of_field(json@, key@) == Some(v@),
            None => text_of_field(json@, key@) is None,
        },
{
    let s = chars_of(json);
    match value_of(s.as_slice(), key) {
        Some(value) => {
            if value.len() > 0 && value[0] == '"' {
                let inside = slice_subrange(value, 1, value.len());
                assert(inside@ =~= value@.skip(1));
                unescape(inside)
            } else {
                None
            }
        },
        None => None,
    }
}

/// The number up to 65535 in the first field of this name.
pub open spec fn small_number_of_field(json: Seq<char>, key: Seq<char>) -> Option<nat> {
    match value_behind(json, key) {
        Some(value) => number::parsed(number::leading_digits(value), u16::MAX as nat),
        None => None,
    }
}

/// Looks up a number field with a value up to 65535.
pub fn json_u16(json: &str, key: &str) -> (r: Option<u16>)
    ensures
        match r {
            Some(v) => small_number_of_field(json@, key@) == Some(v as nat),
            None => small_number_of_field(json@, key@) is None,
        },
{
    let s = chars_of(json);
    match value_of(s.as_slice(), key) {
        Some(value) => match parse_number(take_digits(value), 65535) {
            Some(n) => Some(n as u16),
            None => None,
        },
        None => None,
    }
}

/// The four flags in a list: `true` where the item is that word.
pub open spec fn flags_in(list: Seq<char>) -> Option<Seq<bool>> {
    let items = text::parts(list, ',');
    if items.len() == 4 {
        Some(items.map_values(|v: Seq<char>| text::trimmed(v) == "true"@))
    } else {
        None
    }
}

/// The four flags in the list behind the first field of this name.
pub open spec fn flags_of_field(json: Seq<char>, key: Seq<char>) -> Option<Seq<bool>> {
    match behind(json, name(key)) {
        Some(rest) => match text::cut_at(rest, '[') {
            Some((_, list)) => match text::cut_at(list, ']') {
                Some((inside, _)) => flags_in(inside),
                None => None,
            },
            None => None,
        },
        None => None,
    }
}

fn read_flags(list: &[char]) -> (r: Option<[bool; 4]>)
    ensures
        match r {
            Some(v) => flags_in(list@) == Some(v@),
            None => flags_in(list@) is None,
        },
{
    let mut values: Vec<bool> = Vec::new();
    let mut rest: &[char] = list;
    let mut more = true;
    let ghost flag = |v: Seq<char>| text::trimmed(v) == "true"@;
    assert(values@ + text::parts(rest@, ',').map_values(flag) =~= text::parts(
        list@,
        ',',
    ).map_values(flag));
    while more
        invariant
            flag == (|v: Seq<char>| text::trimmed(v) == "true"@),
            text::parts(list@, ',').map_values(flag) == (if more {
                values@ + text::parts(rest@, ',').map_values(flag)
            } else {
                values@
            }),
        decreases
            (if more {
                1 + rest@.len()
            } else {
                0
            }),
    {
        let ghost before = values@;
        match cut(rest, ',') {
            Some((item, tail)) => {
                let v = is_text(trim(item), "true");
                values.push(v);
                proof {
                    assert(text::parts(rest@, ',') == seq![item@] + text::parts(tail@, ','));
                    assert(before + text::parts(rest@, ',').map_values(flag) =~= values@
                        + text::parts(tail@, ',').map_values(flag));
                }
                rest = tail;
            },
            None => {
                let v = is_text(trim(rest), "true");
                values.push(v);
                proof {
                    assert(text::parts(rest@, ',') == seq![rest@]);
                    assert(before + text::parts(rest@, ',').map_values(flag) =~= values@);
                }
                more = false;
            },
        }
    }
    if values.len() != 4 {
        return None;
    }
    let r = [values[0], values[1], values[2], values[3]];
    assert(r@ =~= values@);
    Some(r)
}

/// Looks up a list of four flags.
pub fn json_bool_array(json: &str, key: &str) -> (r: Option<[bool; 4]>)
    ensures
        match r {
            Some(v) => flags_of_field(json@, key@) == Some(v@),
            None => flags_of_field(json@, key@) is None,
        },
{
    let s = chars_of(json);
    let n = needle(key, "\"");
    match after(s.as_slice(), n.as_slice()) {
        Some(rest) => match cut(rest, '[') {
            Some((_, list)) => match cut(list, ']') {
                Some((inside, _)) => read_flags(inside),
                None => None,
            },
            None => None,
        },
        None => None,
    }
}

proof fn lemma_escaped_first(s: Seq<char>)
    requires
        s.len() > 0,
    ensures
        escaped(s) == escaped_char(s[0]) + escaped(s.drop_first()),
    decreases s.len(),
{
    if s.len() == 1 {
        assert(s.drop_last() =~= seq![]);
        assert(s.drop_first() =~= seq![]);
        assert(escaped(s) =~= escaped_char(s[0]) + escaped(s.drop_first()));
    } else {
        lemma_escaped_first(s.drop_last());
        assert(s.drop_last().drop_first() =~= s.drop_first().drop_last());
        assert(escaped(s) =~= escaped_char(s[0]) + escaped(s.drop_first()));
    }
}

/// Reading the contents of a JSON string gives back the text that was escaped.
pub proof fn unescaping_undoes_escaping(s: Seq<char>, rest: Seq<char>)
    ensures
        unescaped(escaped(s) + seq!['"'] + rest, false) == Some(s),
    decreases s.len(),
{
    let whole = escaped(s) + seq!['"'] + rest;
    if s.len() == 0 {
        assert(whole[0] == '"');
        assert(s =~= seq![]);
    } else {
        let tail = escaped(s.drop_first()) + seq!['"'] + rest;
        lemma_escaped_first(s);
        unescaping_undoes_escaping(s.drop_first(), rest);
        assert(whole =~= escaped_char(s[0]) + tail);
        assert(seq![s[0]] + s.drop_first() =~= s);
        let c = escaped_char(s[0]);
        if c.len() == 2 {
            assert(whole.drop_first() =~= seq![c[1]] + tail);
            assert(whole.drop_first().drop_first() =~= tail);
            reveal_with_fuel(unescaped, 3);
        } else {
            assert(whole.drop_first() =~= tail);
        }
    }
}

/// A string behind the colon that follows the name of a field is read as the
/// text that was escaped.
pub proof fn lemma_string_behind(
    json: Seq<char>,
    key: Seq<char>,
    before: Seq<char>,
    value: Seq<char>,
    rest: Seq<char>,
)
    requires
        text::lacks(before, ':'),
        behind(json, name(key)) == Some(
            before + seq![':', '"'] + escaped(value) + seq!['"'] + rest,
        ),
    ensures
        text_of_field(json, key) == Some(value),
{
    let inside = escaped(value) + seq!['"'] + rest;
    let behind_colon = seq!['"'] + inside;
    assert(before + seq![':', '"'] + escaped(value) + seq!['"'] + rest =~= before + seq![':']
        + behind_colon);
    text::lemma_cut_behind(before, ':', behind_colon);
    assert(text::trimmed_start(behind_colon) == behind_colon);
    assert(behind_colon.skip(1) =~= inside);
    unescaping_undoes_escaping(value, rest);
}

/// A string field that was written with escapes is read back as it was, where
/// the name of the field does not stand earlier in the text.
pub proof fn string_fields_are_read_back(
    before: Seq<char>,
    key: Seq<char>,
    value: Seq<char>,
    rest: Seq<char>,
)
    requires
        text::found(
            before + name(key) + seq![':', '"'] + escaped(value) + seq!['"'] + rest,
            name(key),
        ) == Some(before.len() as int),
    ensures
        text_of_field(
            before + name(key) + seq![':', '"'] + escaped(value) + seq!['"'] + rest,
            key,
        ) == Some(value),
{
    let json = before + name(key) + seq![':', '"'] + escaped(value) + seq!['"'] + rest;
    let tail = Seq::<char>::empty() + seq![':', '"'] + escaped(value) + seq!['"'] + rest;
    assert(json.skip((before.len() + name(key).len()) as int) =~= tail);
    lemma_string_behind(json, key, seq![], value, rest);
}

/// Whether a text, in quotes, ends like the name of a field: it is that name,
/// or ends with a quote and that name.
pub open spec fn closes_as(value: Seq<char>, key: Seq<char>) -> bool {
    let quoted = seq!['"'] + value;
    quoted.len() > key.len() && quoted.skip(quoted.len() - key.len() - 1) == seq!['"'] + key
}

/// A text without quotes ends like the name of a field just where it is that name.
pub proof fn lemma_closes_without_quotes(value: Seq<char>, key: Seq<char>)
    requires
        text::lacks(value, '"'),
    ensures
        closes_as(value, key) == (value == key),
{
    let quoted = seq!['"'] + value;
    let at = quoted.len() - key.len() - 1;
    assert(quoted.skip(0) =~= quoted);
    if closes_as(value, key) {
        assert(quoted.skip(at)[0] == quoted[at]);
        if at > 0 {
            assert(quoted[at] == value[at - 1]);
        }
        assert(value =~= quoted.skip(1));
        assert(key =~= (seq!['"'] + key).skip(1));
    }
}

proof fn lemma_behind_shift(s: Seq<char>, pat: Seq<char>, d: int)
    requires
        0 <= d <= s.len(),
        forall|j: int| 0 <= j < d ==> !text::occurs_at(s, pat, j),
    ensures
        behind(s, pat) == behind(s.skip(d), pat),
{
    let t = s.skip(d);
    text::lemma_find_from(s, pat, 0);
    text::lemma_find_from(t, pat, 0);
    assert forall|j: int| d <= j implies text::occurs_at(s, pat, j) == text::occurs_at(
        t,
        pat,
        j - d,
    ) by {
        if j + pat.len() <= s.len() {
            assert(s.subrange(j, j + pat.len()) =~= t.subrange(j - d, j - d + pat.len()));
        }
    }
    match text::found(s, pat) {
        Some(i) => {
            assert(text::occurs_at(t, pat, i - d));
            let k = text::found(t, pat)->0;
            assert(text::occurs_at(s, pat, k + d));
            assert(k == i - d);
            assert(s.skip(i + pat.len()) =~= t.skip(k + pat.len()));
        },
        None => {
            if let Some(k) = text::found(t, pat) {
                assert(text::occurs_at(s, pat, k + d));
            }
        },
    }
}

/// What has no quote before a text hides no name in it.
pub proof fn lemma_name_behind_lead(lead: Seq<char>, key: Seq<char>, rest: Seq<char>)
    requires
        text::lacks(lead, '"'),
    ensures
        behind(lead + rest, name(key)) == behind(rest, name(key)),
{
    let s = lead + rest;
    reveal_strlit("\"");
    assert(name(key)[0] == '"');
    assert forall|j: int| 0 <= j < lead.len() implies !text::occurs_at(s, name(key), j) by {
        assert(s[j] == lead[j]);
        if text::occurs_at(s, name(key), j) {
            assert(s.subrange(j, j + name(key).len())[0] == s[j]);
        }
    }
    lemma_behind_shift(s, name(key), lead.len() as int);
    assert(s.skip(lead.len() as int) =~= rest);
}

/// Between two quotes stands the name that is looked for, or it is looked for
/// from the second quote on.
pub proof fn lemma_name_behind_quoted(item: Seq<char>, key: Seq<char>, rest: Seq<char>)
    requires
        text::lacks(item, '"'),
        text::lacks(key, '"'),
    ensures
        behind(seq!['"'] + item + seq!['"'] + rest, name(key)) == (if item == key {
            Some(rest)
        } else {
            behind(seq!['"'] + rest, name(key))
        }),
{
    let s = seq!['"'] + item + seq!['"'] + rest;
    let pat = name(key);
    let n = item.len() as int;
    let k = key.len() as int;
    reveal_strlit("\"");
    assert(pat =~= seq!['"'] + key + seq!['"']);
    if item == key {
        assert(s.subrange(0, k + 2) =~= pat);
        text::lemma_first_found(s, pat, 0);
        assert(s.skip(k + 2) =~= rest);
    } else {
        assert forall|j: int| 0 <= j < n + 1 implies !text::occurs_at(s, pat, j) by {
            if text::occurs_at(s, pat, j) {
                let w = s.subrange(j, j + k + 2);
                assert(w[0] == s[j] && w[k + 1] == s[j + k + 1]);
                if j > 0 {
                    assert(s[j] == item[j - 1]);
                } else if k < n {
                    assert(s[k + 1] == item[k]);
                } else if k > n {
                    assert(w[n + 1] == s[n + 1]);
                    assert(pat[n + 1] == key[n]);
                } else {
                    assert forall|i: int| 0 <= i < k implies item[i] == key[i] by {
                        assert(w[i + 1] == s[i + 1]);
                    }
                    assert(item =~= key);
                }
            }
        }
        lemma_behind_shift(s, pat, n + 1);
        assert(s.skip(n + 1) =~= seq!['"'] + rest);
    }
}

proof fn lemma_escaped_add(a: Seq<char>, b: Seq<char>)
    ensures
        escaped(a + b) == escaped(a) + escaped(b),
    decreases b.len(),
{
    if b.len() == 0 {
        assert(a + b =~= a);
        assert(escaped(a) + escaped(b) =~= escaped(a));
    } else {
        assert((a + b).drop_last() =~= a + b.drop_last());
        lemma_escaped_add(a, b.drop_last());
        assert(escaped(a + b) =~= escaped(a) + escaped(b));
    }
}

/// Escaping brings in no characters but the backslash and two letters.
pub proof fn lemma_escaped_lacks(s: Seq<char>, c: char)
    requires
        text::lacks(s, c),
        c != '\\' && c != 'n' && c != 'r',
    ensures
        text::lacks(escaped(s), c),
    decreases s.len(),
{
    if s.len() > 0 {
        assert(s[s.len() - 1] == s.last());
        assert forall|i: int| 0 <= i < s.drop_last().len() implies (#[trigger] s.drop_last()[i])
            != c by {
            assert(s[i] != c);
        }
        lemma_escaped_lacks(s.drop_last(), c);
        let head = escaped(s.drop_last());
        assert forall|i: int| 0 <= i < escaped(s).len() implies (#[trigger] escaped(s)[i]) != c by {
            if i < head.len() {
                assert(escaped(s)[i] == head[i]);
            } else {
                assert(escaped(s)[i] == escaped_char(s.last())[i - head.len()]);
            }
        }
    }
}

proof fn lemma_escaped_is_plain(s: Seq<char>)
    requires
        text::lacks(escaped(s), '\\'),
    ensures
        escaped(s) == s,
    decreases s.len(),
{
    if s.len() > 0 {
        let head = escaped(s.drop_last());
        assert forall|i: int| 0 <= i < head.len() implies (#[trigger] head[i]) != '\\' by {
            assert(escaped(s)[i] == head[i]);
        }
        lemma_escaped_is_plain(s.drop_last());
        assert(escaped(s)[head.len() as int] == escaped_char(s.last())[0]);
        assert(s.drop_last() + seq![s.last()] =~= s);
    } else {
        assert(s =~= seq![]);
    }
}

/// A string in a JSON text hides the name of a field that is looked for only
/// where it closes as that name.
pub proof fn lemma_name_behind_string(value: Seq<char>, key: Seq<char>, rest: Seq<char>)
    requires
        plain(key),
    ensures
        behind(seq!['"'] + escaped(value) + seq!['"'] + rest, name(key)) == (if closes_as(
            value,
            key,
        ) {
            Some(rest)
        } else {
            behind(seq!['"'] + rest, name(key))
        }),
    decreases value.len(),
{
    let e = escaped(value);
    let quoted = seq!['"'] + value;
    let at = quoted.len() - key.len() - 1;
    text::lemma_char_from(value, '"', 0);
    match text::char_index(value, '"') {
        None => {
            lemma_escaped_lacks(value, '"');
            lemma_name_behind_quoted(e, key, rest);
            if e == key {
                lemma_escaped_is_plain(value);
            }
            if value == key {
                lemma_plain(value);
            }
            lemma_closes_without_quotes(value, key);
        },
        Some(i) => {
            let head = value.take(i);
            let tail = value.skip(i + 1);
            let piece = escaped(head) + seq!['\\'];
            let after = escaped(tail) + seq!['"'] + rest;
            assert(value =~= head + seq!['"'] + tail);
            lemma_escaped_add(head + seq!['"'], tail);
            assert((head + seq!['"']).drop_last() =~= head);
            assert(escaped(head + seq!['"']) =~= piece + seq!['"']);
            assert(seq!['"'] + e + seq!['"'] + rest =~= seq!['"'] + piece + seq!['"'] + after);
            lemma_escaped_lacks(head, '"');
            assert forall|j: int| 0 <= j < piece.len() implies (#[trigger] piece[j]) != '"' by {
                if j < escaped(head).len() {
                    assert(piece[j] == escaped(head)[j]);
                }
            }
            assert(piece != key) by {
                assert(piece[piece.len() - 1] == '\\');
            }
            lemma_name_behind_quoted(piece, key, after);
            assert(seq!['"'] + after =~= seq!['"'] + escaped(tail) + seq!['"'] + rest);
            lemma_name_behind_string(tail, key, rest);
            let inner = seq!['"'] + tail;
            let d = i + 1;
            assert(quoted.skip(d) =~= inner);
            if key.len() < inner.len() {
                assert(quoted.skip(at) =~= inner.skip(at - d));
            } else if closes_as(value, key) {
                assert(quoted.skip(at)[d - at] == quoted[d]);
                assert((seq!['"'] + key)[d - at] == key[d - at - 1]);
            }
        },
    }
}

/// A value of a field: a text, a number, or what is written without quotes.
pub enum Value {
    Text(Seq<char>),
    Number(nat),
    Word(Seq<char>),
}

/// A value as it is written.
pub open spec fn value_text(v: Value) -> Seq<char> {
    match v {
        Value::Text(t) => seq!['"'] + escaped(t) + seq!['"'],
        Value::Number(n) => number::decimal(n),
        Value::Word(w) => w,
    }
}

/// A field as it is written.
pub open spec fn entry_text(key: Seq<char>, v: Value) -> Seq<char> {
    seq!['"'] + key + seq!['"'] + seq![':'] + value_text(v)
}

/// Fields with commas between them, as they are written.
pub open spec fn entries_text(keys: Seq<Seq<char>>, vs: Seq<Value>) -> Seq<char>
    decreases keys.len(),
{
    if keys.len() == 0 {
        seq![]
    } else if keys.len() == 1 {
        entry_text(keys[0], vs[0])
    } else {
        entry_text(keys[0], vs[0]) + seq![','] + entries_text(keys.drop_first(), vs.drop_first())
    }
}

/// What the name of a field is made of: plain text, not empty, that starts with
/// no punctuation.
pub open spec fn is_field_name(key: Seq<char>) -> bool {
    plain(key) && key.len() > 0 && key[0] != ':' && key[0] != ',' && key[0] != '{' && key[0] != '}'
}

/// Whether a value could be taken for a name that is looked for behind it: a text
/// that closes as it, or quotes where none belong.
pub open spec fn hides(v: Value, key: Seq<char>) -> bool {
    match v {
        Value::Text(t) => closes_as(t, key),
        Value::Number(_) => false,
        Value::Word(w) => !text::lacks(w, '"'),
    }
}

/// Whether fields hide no name that is looked for behind them: they have other
/// names, and no value among them could be taken for it.
pub open spec fn hide_nothing(keys: Seq<Seq<char>>, vs: Seq<Value>, key: Seq<char>) -> bool {
    &&& keys.len() == vs.len()
    &&& forall|i: int|
        0 <= i < keys.len() ==> is_field_name(#[trigger] keys[i]) && keys[i] != key && !hides(
            vs[i],
            key,
        )
}

proof fn lemma_past_entry(
    other: Seq<char>,
    v: Value,
    key: Seq<char>,
    lead: Seq<char>,
    rest: Seq<char>,
)
    requires
        is_field_name(other),
        is_field_name(key),
        other != key,
        !hides(v, key),
        lead.len() > 0,
        lead[0] == ',' || lead[0] == '}',
        text::lacks(lead, '"'),
    ensures
        behind(entry_text(other, v) + lead + (seq!['"'] + rest), name(key)) == behind(
            seq!['"'] + rest,
            name(key),
        ),
{
    let whole = entry_text(other, v) + lead + (seq!['"'] + rest);
    let after_name = seq![':'] + value_text(v) + lead + (seq!['"'] + rest);
    assert(whole =~= seq!['"'] + other + seq!['"'] + after_name);
    lemma_name_behind_quoted(other, key, after_name);
    match v {
        Value::Text(t) => {
            let after_value = lead + (seq!['"'] + rest);
            let string = escaped(t) + seq!['"'] + after_value;
            assert(seq!['"'] + after_name =~= seq!['"'] + seq![':'] + seq!['"'] + string);
            lemma_name_behind_quoted(seq![':'], key, string);
            assert(seq!['"'] + string =~= seq!['"'] + escaped(t) + seq!['"'] + after_value);
            lemma_name_behind_string(t, key, after_value);
            assert(seq!['"'] + after_value =~= seq!['"'] + lead + seq!['"'] + rest);
            lemma_name_behind_quoted(lead, key, rest);
        },
        _ => {
            let d = value_text(v);
            let item = seq![':'] + d + lead;
            if let Value::Number(n) = v {
                number::lemma_decimal_lacks(n, '"');
            }
            assert forall|i: int| 0 <= i < item.len() implies (#[trigger] item[i]) != '"' by {
                if 0 < i <= d.len() {
                    assert(item[i] == d[i - 1]);
                } else if i > d.len() {
                    assert(item[i] == lead[i - 1 - d.len()]);
                }
            }
            assert(item[0] == ':');
            assert(seq!['"'] + after_name =~= seq!['"'] + item + seq!['"'] + rest);
            lemma_name_behind_quoted(item, key, rest);
        },
    }
}

proof fn lemma_entries_start(keys: Seq<Seq<char>>, vs: Seq<Value>)
    requires
        keys.len() > 0,
    ensures
        entries_text(keys, vs).len() > 0,
        entries_text(keys, vs)[0] == '"',
{
}

/// Fields that hide nothing are passed over.
pub proof fn lemma_past_entries(
    keys: Seq<Seq<char>>,
    vs: Seq<Value>,
    key: Seq<char>,
    lead: Seq<char>,
    rest: Seq<char>,
)
    requires
        keys.len() > 0,
        is_field_name(key),
        hide_nothing(keys, vs, key),
        lead.len() > 0,
        lead[0] == ',' || lead[0] == '}',
        text::lacks(lead, '"'),
    ensures
        behind(entries_text(keys, vs) + lead + (seq!['"'] + rest), name(key)) == behind(
            seq!['"'] + rest,
            name(key),
        ),
    decreases keys.len(),
{
    assert(is_field_name(keys[0]) && keys[0] != key);
    if keys.len() == 1 {
        lemma_past_entry(keys[0], vs[0], key, lead, rest);
    } else {
        let k = keys.drop_first();
        let v = vs.drop_first();
        assert forall|i: int| 0 <= i < k.len() implies is_field_name(#[trigger] k[i]) && k[i] != key
            && !hides(v[i], key) by {
            assert(k[i] == keys[i + 1]);
        }
        lemma_past_entries(k, v, key, lead, rest);
        lemma_entries_start(k, v);
        let more = entries_text(k, v) + lead + (seq!['"'] + rest);
        assert(entries_text(keys, vs) + lead + (seq!['"'] + rest) =~= entry_text(keys[0], vs[0])
            + seq![','] + (seq!['"'] + more.skip(1)));
        assert(seq!['"'] + more.skip(1) =~= more);
        lemma_past_entry(keys[0], vs[0], key, seq![','], more.skip(1));
    }
}

proof fn lemma_at_entries(keys: Seq<Seq<char>>, vs: Seq<Value>, at: int, rest: Seq<char>) -> (tail:
    Seq<char>)
    requires
        0 <= at < keys.len(),
        keys.len() == vs.len(),
        is_field_name(keys[at]),
        hide_nothing(keys.take(at), vs.take(at), keys[at]),
        rest.len() > 0,
        rest[0] == ',' || rest[0] == '}',
    ensures
        behind(entries_text(keys, vs) + rest, name(keys[at])) == Some(
            seq![':'] + value_text(vs[at]) + tail,
        ),
        tail.len() > 0,
        tail[0] == ',' || tail[0] == '}',
    decreases keys.len(),
{
    let key = keys[at];
    if at == 0 {
        let tail = if keys.len() == 1 {
            rest
        } else {
            seq![','] + entries_text(keys.drop_first(), vs.drop_first()) + rest
        };
        let value = seq![':'] + value_text(vs[0]) + tail;
        assert(entries_text(keys, vs) + rest =~= seq!['"'] + key + seq!['"'] + value);
        lemma_name_behind_quoted(key, key, value);
        tail
    } else {
        let k = keys.drop_first();
        let v = vs.drop_first();
        assert(keys.take(at)[0] == keys[0] && vs.take(at)[0] == vs[0]);
        assert(k[at - 1] == key);
        assert(hide_nothing(k.take(at - 1), v.take(at - 1), key)) by {
            assert forall|i: int| 0 <= i < at - 1 implies is_field_name(#[trigger] k.take(at - 1)[i])
                && k.take(at - 1)[i] != key && !hides(v.take(at - 1)[i], key) by {
                assert(k.take(at - 1)[i] == keys.take(at)[i + 1]);
                assert(v.take(at - 1)[i] == vs.take(at)[i + 1]);
            }
        }
        let tail = lemma_at_entries(k, v, at - 1, rest);
        lemma_entries_start(k, v);
        let more = entries_text(k, v) + rest;
        assert(entries_text(keys, vs) + rest =~= entry_text(keys[0], vs[0]) + seq![','] + (seq!['"']
            + more.skip(1)));
        assert(seq!['"'] + more.skip(1) =~= more);
        lemma_past_entry(keys[0], vs[0], key, seq![','], more.skip(1));
        tail
    }
}

#[verifier::rlimit(40)]
proof fn lemma_number_behind(json: Seq<char>, key: Seq<char>, n: nat, tail: Seq<char>)
    requires
        n <= u64::MAX,
        behind(json, name(key)) == Some(seq![':'] + number::decimal(n) + tail),
        tail.len() > 0,
        tail[0] < '0' || tail[0] > '9',
    ensures
        number_of_field(json, key) == Some(n),
        n <= u16::MAX ==> small_number_of_field(json, key) == Some(n),
{
    let d = number::decimal(n);
    let at = text::found(json, name(key))->0;
    let pat = field(key);
    reveal_strlit("\"");
    reveal_strlit("\":");
    text::lemma_find_from(json, name(key), 0);
    assert(pat =~= name(key) + seq![':']);
    let rest = json.skip(at + name(key).len());
    assert(rest == seq![':'] + d + tail);
    assert(rest[0] == ':');
    assert(json.subrange(at, at + pat.len()) =~= pat) by {
        assert forall|k: int| 0 <= k < pat.len() implies json[at + k] == pat[k] by {
            if k < name(key).len() {
                assert(json.subrange(at, at + name(key).len())[k] == json[at + k]);
            } else {
                assert(rest[0] == json[at + k]);
            }
        }
    }
    assert forall|j: int| 0 <= j < at implies !text::occurs_at(json, pat, j) by {
        if text::occurs_at(json, pat, j) {
            assert(json.subrange(j, j + name(key).len()) =~= json.subrange(
                j,
                j + pat.len(),
            ).take(name(key).len() as int));
            assert(pat.take(name(key).len() as int) =~= name(key));
            assert(text::occurs_at(json, name(key), j));
        }
    }
    text::lemma_first_found(json, pat, at);
    assert(json.skip(at + pat.len()) =~= rest.skip(1));
    assert(rest.skip(1) =~= d + tail);
    number::lemma_decimal_parsed(n, u64::MAX as nat);
    number::lemma_decimal_parsed(n, u16::MAX as nat);
    number::lemma_digit_run(d, tail);
    text::lemma_cut_behind(seq![], ':', d + tail);
    assert(seq![':'] + d + tail =~= Seq::<char>::empty() + seq![':'] + (d + tail));
    assert(number::is_digit(d[0]));
    assert((d + tail)[0] == d[0]);
    assert(text::trimmed_start(d + tail) == d + tail);
}

/// A field is read back by its name as it was written, behind fields that hide
/// nothing: a text with all its characters, a number with all its digits.
pub proof fn fields_are_read_back(
    json: Seq<char>,
    keys: Seq<Seq<char>>,
    vs: Seq<Value>,
    at: int,
    rest: Seq<char>,
)
    requires
        0 <= at < keys.len(),
        keys.len() == vs.len(),
        is_field_name(keys[at]),
        hide_nothing(keys.take(at), vs.take(at), keys[at]),
        rest.len() > 0,
        rest[0] == ',' || rest[0] == '}',
        behind(json, name(keys[at])) == behind(entries_text(keys, vs) + rest, name(keys[at])),
    ensures
        vs[at] matches Value::Text(t) ==> text_of_field(json, keys[at]) == Some(t),
        vs[at] matches Value::Number(n) ==> n <= u64::MAX ==> number_of_field(json, keys[at])
            == Some(n),
        vs[at] matches Value::Word(w) ==> w.len() > 0 && !text::is_space(w[0]) ==> {
            &&& value_behind(json, keys[at]) matches Some(v)
            &&& v.len() > w.len()
            &&& v.take(w.len() as int) == w
            &&& v[w.len() as int] == ',' || v[w.len() as int] == '}'
        },
{
    let key = keys[at];
    let tail = lemma_at_entries(keys, vs, at, rest);
    match vs[at] {
        Value::Text(t) => {
            assert(seq![':'] + value_text(vs[at]) + tail =~= Seq::<char>::empty() + seq![':', '"']
                + escaped(t) + seq!['"'] + tail);
            lemma_string_behind(json, key, seq![], t, tail);
        },
        Value::Number(n) => {
            if n <= u64::MAX {
                lemma_number_behind(json, key, n, tail);
            }
        },
        Value::Word(w) => {
            text::lemma_cut_behind(seq![], ':', w + tail);
            assert(seq![':'] + w + tail =~= Seq::<char>::empty() + seq![':'] + (w + tail));
            assert((w + tail).take(w.len() as int) =~= w);
            if w.len() > 0 && !text::is_space(w[0]) {
                assert((w + tail)[0] == w[0]);
                assert(text::trimmed_start(w + tail) == w + tail);
            }
        },
    }
}

/// Fields behind other fields are written behind a comma.
pub proof fn lemma_entries_add(
    a: Seq<Seq<char>>,
    va: Seq<Value>,
    b: Seq<Seq<char>>,
    vb: Seq<Value>,
)
    requires
        a.len() > 0,
        b.len() > 0,
        a.len() == va.len(),
        b.len() == vb.len(),
    ensures
        entries_text(a + b, va + vb) == entries_text(a, va) + seq![','] + entries_text(b, vb),
    decreases a.len(),
{
    assert((a + b).drop_first() =~= a.drop_first() + b);
    assert((va + vb).drop_first() =~= va.drop_first() + vb);
    assert((a + b)[0] == a[0] && (va + vb)[0] == va[0]);
    if a.len() == 1 {
        assert(a.drop_first() + b =~= b);
        assert(va.drop_first() + vb =~= vb);
    } else {
        lemma_entries_add(a.drop_first(), va.drop_first(), b, vb);
        let e = entry_text(a[0], va[0]);
        let m = entries_text(a.drop_first(), va.drop_first());
        let n = entries_text(b, vb);
        assert(e + seq![','] + (m + seq![','] + n) =~= (e + seq![','] + m) + seq![','] + n);
    }
}

/// One field, written out.
pub proof fn lemma_entries_1(
    k0: Seq<char>,
    v0: Value,
)
    ensures
        entries_text(seq![k0], seq![v0]) == entry_text(k0, v0),
{
}

/// Two fields, written out.
pub proof fn lemma_entries_2(
    k0: Seq<char>,
    v0: Value,
    k1: Seq<char>,
    v1: Value,
)
    ensures
        entries_text(seq![k0, k1], seq![v0, v1]) == entry_text(k0, v0) + seq![',']
            + (entry_text(k1, v1)),
{
    let keys = seq![k0, k1];
    let vs = seq![v0, v1];
    lemma_entries_1(k1, v1);
    assert(keys.drop_first() =~= seq![k1]);
    assert(vs.drop_first() =~= seq![v1]);
}

/// Three fields, written out.
pub proof fn lemma_entries_3(
    k0: Seq<char>,
    v0: Value,
    k1: Seq<char>,
    v1: Value,
    k2: Seq<char>,
    v2: Value,
)
    ensures
        entries_text(seq![k0, k1, k2], seq![v0, v1, v2]) == entry_text(k0, v0) + seq![',']
            + (entry_text(k1, v1) + seq![','] + (entry_text(k2, v2))),
{
    let keys = seq![k0, k1, k2];
    let vs = seq![v0, v1, v2];
    lemma_entries_2(k1, v1, k2, v2);
    assert(keys.drop_first() =~= seq![k1, k2]);
    assert(vs.drop_first() =~= seq![v1, v2]);
}

/// Four fields, written out.
pub proof fn lemma_entries_4(
    k0: Seq<char>,
    v0: Value,
    k1: Seq<char>,
    v1: Value,
    k2: Seq<char>,
    v2: Value,
    k3: Seq<char>,
    v3: Value,
)
    ensures
        entries_text(seq![k0, k1, k2, k3], seq![v0, v1, v2, v3]) == entry_text(k0, v0) + seq![',']
            + (entry_text(k1, v1) + seq![','] + (entry_text(k2, v2) + seq![','] + (entry_text(k3,
            v3)))),
{
    let keys = seq![k0, k1, k2, k3];
    let vs = seq![v0, v1, v2, v3];
    lemma_entries_3(k1, v1, k2, v2, k3, v3);
    assert(keys.drop_first() =~= seq![k1, k2, k3]);
    assert(vs.drop_first() =~= seq![v1, v2, v3]);
}

/// Five fields, written out.
pub proof fn lemma_entries_5(
    k0: Seq<char>,
    v0: Value,
    k1: Seq<char>,
    v1: Value,
    k2: Seq<char>,
    v2: Value,
    k3: Seq<char>,
    v3: Value,
    k4: Seq<char>,
    v4: Value,
)
    ensures
        entries_text(seq![k0, k1, k2, k3, k4], seq![v0, v1, v2, v3, v4]) == entry_text(k0, v0)
            + seq![','] + (entry_text(k1, v1) + seq![','] + (entry_text(k2, v2) + seq![',']
            + (entry_text(k3, v3) + seq![','] + (entry_text(k4, v4))))),
{
    let keys = seq![k0, k1, k2, k3, k4];
    let vs = seq![v0, v1, v2, v3, v4];
    lemma_entries_4(k1, v1, k2, v2, k3, v3, k4, v4);
    assert(keys.drop_first() =~= seq![k1, k2, k3, k4]);
    assert(vs.drop_first() =~= seq![v1, v2, v3, v4]);
}

/// Texts are escaped character by character: a backslash goes before quotes and
/// backslashes, a line feed and a carriage return are written by letter, and all
/// else stays as it is.
pub proof fn texts_are_escaped_by_character(a: Seq<char>, c: char, b: Seq<char>)
    ensures
        escaped(Seq::<char>::empty()) == Seq::<char>::empty(),
        c == '"' ==> escaped(a + seq![c] + b) == escaped(a) + seq!['\\', '"'] + escaped(b),
        c == '\\' ==> escaped(a + seq![c] + b) == escaped(a) + seq!['\\', '\\'] + escaped(b),
        c == '\n' ==> escaped(a + seq![c] + b) == escaped(a) + seq!['\\', 'n'] + escaped(b),
        c == '\r' ==> escaped(a + seq![c] + b) == escaped(a) + seq!['\\', 'r'] + escaped(b),
        c != '"' && c != '\\' && c != '\n' && c != '\r' ==> escaped(a + seq![c] + b) == escaped(a)
            + seq![c] + escaped(b),
{
    lemma_escaped_add(a + seq![c], b);
    lemma_escaped_add(a, seq![c]);
    assert(seq![c].drop_last() =~= seq![]);
    reveal_with_fuel(escaped, 2);
    assert(escaped(seq![c]) =~= escaped_char(c));
}

/// A backslash makes the next character part of the text: `n`, `r` and `t` stand for
/// line feed, carriage return and tab, all others for themselves. Without a closing
/// quote there is no text.
pub proof fn escapes_are_taken_out(c: char, rest: Seq<char>, open: Seq<char>)
    requires
        text::lacks(open, '"'),
    ensures
        unescaped(open, false) is None,
        unescaped(seq!['"'] + rest, false) == Some(Seq::<char>::empty()),
        unescaped(seq!['\\', c] + rest, false) is Some <==> unescaped(rest, false) is Some,
        unescaped(rest, false) matches Some(t) ==> unescaped(seq!['\\', c] + rest, false) == Some(
            seq![
                if c == 'n' {
                    '\n'
                } else if c == 'r' {
                    '\r'
                } else if c == 't' {
                    '\t'
                } else {
                    c
                },
            ] + t,
        ),
        c != '\\' && c != '"' ==> (unescaped(seq![c] + rest, false) is Some <==> unescaped(
            rest,
            false,
        ) is Some),
        c != '\\' && c != '"' ==> (unescaped(rest, false) matches Some(t) ==> unescaped(
            seq![c] + rest,
            false,
        ) == Some(seq![c] + t)),
{
    lemma_no_quote(open, false);
    let s = seq!['\\', c] + rest;
    assert(s.drop_first() =~= seq![c] + rest);
    assert(s.drop_first().drop_first() =~= rest);
    assert((seq![c] + rest).drop_first() =~= rest);
    assert((seq![c] + rest)[0] == c);
    reveal_with_fuel(unescaped, 3);
}

proof fn lemma_no_quote(s: Seq<char>, after_backslash: bool)
    requires
        text::lacks(s, '"'),
    ensures
        unescaped(s, after_backslash) is None,
    decreases s.len(),
{
    if s.len() > 0 {
        assert forall|i: int| 0 <= i < s.drop_first().len() implies (#[trigger] s.drop_first()[i])
            != '"' by {
            assert(s[i + 1] != '"');
        }
        lemma_no_quote(s.drop_first(), false);
        lemma_no_quote(s.drop_first(), true);
    }
}

/// The string of a field is found behind the first place where the name of the field
/// is followed by a colon and a quote, and goes up to the next quote.
pub proof fn strings_of_the_device_are_found(
    before: Seq<char>,
    key: Seq<char>,
    value: Seq<char>,
    rest: Seq<char>,
)
    requires
        text::lacks(value, '"'),
        ({
            let wanted = seq!['"'] + key + seq!['"', ':', '"'];
            forall|j: int|
                0 <= j < before.len() ==> !text::occurs_at(
                    before + wanted + value + seq!['"'] + rest,
                    wanted,
                    j,
                )
        }),
    ensures
        string_of_field(
            before + (seq!['"'] + key + seq!['"', ':', '"']) + value + seq!['"'] + rest,
            key,
        ) == Some(value),
{
    let wanted = seq!['"'] + key + seq!['"', ':', '"'];
    let json = before + wanted + value + seq!['"'] + rest;
    reveal_strlit("\"");
    reveal_strlit("\":\"");
    assert(string_field(key) =~= wanted);
    let at = before.len() as int;
    assert(json.subrange(at, at + wanted.len()) =~= wanted);
    text::lemma_first_found(json, wanted, at);
    assert(json.skip(at + wanted.len()) =~= value + seq!['"'] + rest);
    text::lemma_cut_behind(value, '"', rest);
}

/// The number of a field is found behind the first place where the name of the field
/// is followed by a colon: all digits that stand there, where they make a number of
/// 64 bits.
pub proof fn numbers_of_the_device_are_found(
    before: Seq<char>,
    key: Seq<char>,
    n: nat,
    rest: Seq<char>,
)
    requires
        rest.len() > 0 ==> !('0' <= rest[0] <= '9'),
        ({
            let wanted = seq!['"'] + key + seq!['"', ':'];
            &&& forall|j: int|
                0 <= j < before.len() ==> !text::occurs_at(
                    before + wanted + number::decimal(n) + rest,
                    wanted,
                    j,
                )
            &&& forall|j: int|
                0 <= j < before.len() ==> !text::occurs_at(before + wanted + rest, wanted, j)
        }),
    ensures
        number_of_field(
            before + (seq!['"'] + key + seq!['"', ':']) + number::decimal(n) + rest,
            key,
        ) == (if n <= u64::MAX {
            Some(n)
        } else {
            None
        }),
        number_of_field(before + (seq!['"'] + key + seq!['"', ':']) + rest, key) is None,
{
    let wanted = seq!['"'] + key + seq!['"', ':'];
    let d = number::decimal(n);
    reveal_strlit("\"");
    reveal_strlit("\":");
    assert(field(key) =~= wanted);
    let at = before.len() as int;
    let json = before + wanted + d + rest;
    assert(json.subrange(at, at + wanted.len()) =~= wanted);
    text::lemma_first_found(json, wanted, at);
    assert(json.skip(at + wanted.len()) =~= d + rest);
    number::lemma_decimal_parsed(n, u64::MAX as nat);
    number::lemma_digit_run(d, rest);
    let bare = before + wanted + rest;
    assert(bare.subrange(at, at + wanted.len()) =~= wanted);
    text::lemma_first_found(bare, wanted, at);
    assert(bare.skip(at + wanted.len()) =~= rest);
}

/// A field that is not there has no value.
pub proof fn missing_fields_have_no_value(json: Seq<char>, key: Seq<char>)
    requires
        forall|j: int| !#[trigger] text::occurs_at(json, seq!['"'] + key + seq!['"'], j),
    ensures
        text_of_field(json, key) is None,
        small_number_of_field(json, key) is None,
        flags_of_field(json, key) is None,
{
    reveal_strlit("\"");
    assert(name(key) =~= seq!['"'] + key + seq!['"']);
    text::lemma_find_from(json, name(key), 0);
}

/// In a posted text there may be blanks between the name of a field, the colon and
/// the value.
pub proof fn blanks_round_the_colon_are_skipped(
    json: Seq<char>,
    key: Seq<char>,
    before: Seq<char>,
    blanks: Seq<char>,
    value: Seq<char>,
    rest: Seq<char>,
    n: nat,
)
    requires
        text::lacks(before, ':'),
        forall|i: int| 0 <= i < blanks.len() ==> text::is_space(#[trigger] blanks[i]),
        rest.len() > 0 ==> !('0' <= rest[0] <= '9'),
    ensures
        behind(json, name(key)) == Some(
            before + seq![':'] + (blanks + (seq!['"'] + escaped(value) + seq!['"'] + rest)),
        ) ==> text_of_field(json, key) == Some(value),
        behind(json, name(key)) == Some(
            before + seq![':'] + (blanks + (number::decimal(n) + rest)),
        ) ==> small_number_of_field(json, key) == (if n <= 65535 {
            Some(n)
        } else {
            None
        }),
{
    let quoted = seq!['"'] + escaped(value) + seq!['"'] + rest;
    text::lemma_cut_behind(before, ':', blanks + quoted);
    text::lemma_space_in_front(blanks, quoted);
    assert(text::trimmed_start(quoted) == quoted);
    assert(quoted.skip(1) =~= escaped(value) + seq!['"'] + rest);
    unescaping_undoes_escaping(value, rest);
    let d = number::decimal(n);
    text::lemma_cut_behind(before, ':', blanks + (d + rest));
    text::lemma_space_in_front(blanks, d + rest);
    number::lemma_decimal_parsed(n, 65535);
    assert(number::is_digit(d[0]));
    assert((d + rest)[0] == d[0]);
    assert(text::trimmed_start(d + rest) == d + rest);
    number::lemma_digit_run(d, rest);
}

/// A list of four items gives four flags, each set just where its item is the word
/// `true`, with blanks around it or without; a list of another length gives none.
pub proof fn lists_of_four_give_flags(
    json: Seq<char>,
    key: Seq<char>,
    before: Seq<char>,
    list: Seq<char>,
    rest: Seq<char>,
    i: int,
)
    requires
        behind(json, name(key)) == Some(before + seq!['['] + (list + seq![']'] + rest)),
        text::lacks(before, '['),
        text::lacks(list, ']'),
        0 <= i < 4,
    ensures
        text::parts(list, ',').len() != 4 ==> flags_of_field(json, key) is None,
        text::parts(list, ',').len() == 4 ==> {
            &&& flags_of_field(json, key) matches Some(flags)
            &&& flags.len() == 4
            &&& flags[i] <==> text::trimmed(text::parts(list, ',')[i]) == seq!['t', 'r', 'u', 'e']
        },
{
    text::lemma_cut_behind(before, '[', list + seq![']'] + rest);
    text::lemma_cut_behind(list, ']', rest);
    reveal_strlit("true");
    assert("true"@ =~= seq!['t', 'r', 'u', 'e']);
}

/// The flags are written as the words `true` and `false`.
pub proof fn flags_are_written_as_words()
    ensures
        bool_text(true) == seq!['t', 'r', 'u', 'e'],
        bool_text(false) == seq!['f', 'a', 'l', 's', 'e'],
{
    reveal_strlit("true");
    reveal_strlit("false");
    assert("true"@ =~= seq!['t', 'r', 'u', 'e']);
    assert("false"@ =~= seq!['f', 'a', 'l', 's', 'e']);
}

/// A message is about an operation just where it names both the module and the
/// operation.
pub proof fn operations_have_two_names(json: Seq<char>, module: Seq<char>, operation: Seq<char>)
    ensures
        is_operation(json, module, operation) <==> string_of_field(json, "MODULE"@) == Some(module)
            && string_of_field(json, "OPERATION"@) == Some(operation),
{
}

/// A string or a number that is not there, or a string that does not end, is none.
pub proof fn missing_values_of_the_device_are_none(json: Seq<char>, key: Seq<char>, at: int)
    ensures
        ({
            let string = seq!['"'] + key + seq!['"', ':', '"'];
            let number = seq!['"'] + key + seq!['"', ':'];
            &&& (forall|j: int| !#[trigger] text::occurs_at(json, string, j)) ==> string_of_field(
                json,
                key,
            ) is None
            &&& (forall|j: int| !#[trigger] text::occurs_at(json, number, j)) ==> number_of_field(
                json,
                key,
            ) is None
            &&& text::found(json, string) == Some(at) && text::lacks(
                json.skip(at + key.len() + 4),
                '"',
            ) ==> string_of_field(json, key) is None
        }),
{
    reveal_strlit("\"");
    reveal_strlit("\":\"");
    reveal_strlit("\":");
    assert(string_field(key) =~= seq!['"'] + key + seq!['"', ':', '"']);
    assert(field(key) =~= seq!['"'] + key + seq!['"', ':']);
    text::lemma_find_from(json, string_field(key), 0);
    text::lemma_find_from(json, field(key), 0);
    if text::found(json, string_field(key)) == Some(at) {
        let rest = json.skip(at + key.len() + 4);
        if text::lacks(rest, '"') {
            text::lemma_cut_behind(rest, '"', seq![]);
        }
    }
}

/// All digits that stand behind the name of a field make its number, with zeros before
/// them or without.
pub proof fn all_digits_make_the_number(
    json: Seq<char>,
    key: Seq<char>,
    digits: Seq<char>,
    rest: Seq<char>,
)
    requires
        number::all_digits(digits),
        digits.len() > 0,
        rest.len() > 0 ==> rest[0] < '0' || rest[0] > '9',
    ensures
        behind(json, field(key)) == Some(digits + rest) ==> number_of_field(json, key) == (
        if number::digits_value(digits) <= u64::MAX {
            Some(number::digits_value(digits))
        } else {
            None
        }),
        behind(json, name(key)) == Some(seq![':'] + (digits + rest)) ==> small_number_of_field(
            json,
            key,
        ) == (if number::digits_value(digits) <= 65535 {
            Some(number::digits_value(digits))
        } else {
            None
        }),
{
    number::lemma_digit_run(digits, rest);
    assert(number::is_digit(digits[0]));
    text::lemma_cut_behind(seq![], ':', digits + rest);
    assert(seq![':'] + (digits + rest) =~= Seq::<char>::empty() + seq![':'] + (digits + rest));
    assert((digits + rest)[0] == digits[0]);
    assert(text::trimmed_start(digits + rest) == digits + rest);
}

} // verus!
