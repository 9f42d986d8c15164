//! Settings: what the configuration file holds, and what the bridge needs of it.
use vstd::prelude::*;
use vstd::slice::slice_subrange;

use crate::number;
use crate::number::parse_number;
use crate::text;
use crate::text::{chars_of, cut, is_text, string_of, take_line, trim};

verus! {

broadcast use vstd::string::group_string_axioms;

/// The settings of the application.
#[derive(Debug)]
pub struct AppConfig {
    pub host: String,
    pub port: u16,
    pub user: String,
    pub password: String,
    pub stream_name: String,
    pub channels: [bool; 4],
    pub http_bind: String,
    pub rtsp_bind: String,
}

/// What the settings hold.
#[verifier::ext_equal]
pub struct Settings {
    pub host: Seq<char>,
    pub port: u16,
    pub user: Seq<char>,
    pub password: Seq<char>,
    pub stream_name: Seq<char>,
    pub channels: Seq<bool>,
    pub http_bind: Seq<char>,
    pub rtsp_bind: Seq<char>,
}

impl View for AppConfig {
    type V = Settings;

    open spec fn view(&self) -> Settings {
        Settings {
            host: self.host@,
            port: self.port,
            user: self.user@,
            password: self.password@,
            stream_name: self.stream_name@,
            channels: self.channels@,
            http_bind: self.http_bind@,
            rtsp_bind: self.rtsp_bind@,
        }
    }
}

impl Settings {
    /// The settings without a configuration file.
    pub open spec fn defaults() -> Settings {
        Settings {
            host: seq![],
            port: 9006,
            user: seq![],
            password: seq![],
            stream_name: "N9M-RTSP"@,
            channels: seq![true, true, true, true],
            http_bind: "0.0.0.0:8080"@,
            rtsp_bind: "0.0.0.0:8554"@,
        }
    }

    /// The settings with one of them changed. Values that do not fit and names
    /// that are not known change nothing.
    pub open spec fn with(self, key: Seq<char>, value: Seq<char>) -> Settings {
        if key == "host"@ {
            Settings { host: value, ..self }
        } else if key == "port"@ {
            match number::parsed(value, u16::MAX as nat) {
                Some(n) => Settings { port: n as u16, ..self },
                None => self,
            }
        } else if key == "user"@ {
            Settings { user: value, ..self }
        } else if key == "password"@ {
            Settings { password: value, ..self }
        } else if key == "stream_name"@ {
            Settings { stream_name: value, ..self }
        } else if key == "channels"@ {
            match channel_flags(value) {
                Some(flags) => Settings { channels: flags, ..self },
                None => self,
            }
        } else if key == "http_bind"@ {
            Settings { http_bind: value, ..self }
        } else if key == "rtsp_bind"@ {
            Settings { rtsp_bind: value, ..self }
        } else {
            self
        }
    }

    /// The settings after a line of a configuration file: a name, an equals
    /// sign and a value. Blank lines and those that start with `#` are skipped.
    pub open spec fn after_line(self, line: Seq<char>) -> Settings {
        let l = text::trimmed(line);
        if l.len() == 0 || l[0] == '#' {
            self
        } else {
            match text::cut_at(l, '=') {
                Some((key, value)) => self.with(
                    text::trimmed(key),
                    unquoted(text::trimmed(value)),
                ),
                None => self,
            }
        }
    }

    /// The settings after the lines of a configuration file, in order.
    pub open spec fn after_lines(self, lines: Seq<Seq<char>>) -> Settings
        decreases lines.len(),
    {
        if lines.len() == 0 {
            self
        } else {
            self.after_line(lines[0]).after_lines(lines.drop_first())
        }
    }
}

/// A value without the quotes round it, if it has them at both ends.
pub open spec fn unquoted(value: Seq<char>) -> Seq<char> {
    if value.len() >= 2 && value[0] == '"' && value.last() == '"' {
        value.subrange(1, value.len() - 1)
    } else {
        value
    }
}

/// Takes the quotes off a value.
pub fn unquote(value: &str) -> (r: String)
    ensures
        r@ == unquoted(value@),
{
    let s = chars_of(value);
    let n: usize = s.len();
    if n >= 2 && s[0] == '"' && s[n - 1] == '"' {
        string_of(slice_subrange(s.as_slice(), 1, n - 1))
    } else {
        value.to_owned()
    }
}

/// The number of a channel: from 1 to 4, alone or behind `CH`.
pub open spec fn channel_number(item: Seq<char>) -> Option<nat> {
    let digits = if item.len() >= 2 && item[0] == 'C' && item[1] == 'H' {
        item.skip(2)
    } else {
        item
    };
    match number::parsed(digits, 4) {
        Some(n) => if n >= 1 {
            Some(n)
        } else {
            None
        },
        None => None,
    }
}

/// The flags with those of the listed channels set. Blank items are skipped;
/// anything that is no channel spoils the list.
pub open spec fn flags_with(flags: Seq<bool>, items: Seq<Seq<char>>) -> Option<Seq<bool>>
    decreases items.len(),
{
    if items.len() == 0 {
        Some(flags)
    } else if text::trimmed(items[0]).len() == 0 {
        flags_with(flags, items.drop_first())
    } else {
        match channel_number(text::trimmed(items[0])) {
            Some(n) => flags_with(flags.update(n - 1, true), items.drop_first()),
            None => None,
        }
    }
}

/// The flags of the channels in a list with commas.
pub open spec fn channel_flags(value: Seq<char>) -> Option<Seq<bool>> {
    flags_with(seq![false, false, false, false], text::parts(value, ','))
}

fn read_channel(item: &[char]) -> (r: Option<usize>)
    ensures
        match r {
            Some(n) => channel_number(item@) == Some(n as nat) && 1 <= n <= 4,
            None => channel_number(item@) is None,
        },
{
    let digits = if item.len() >= 2 && item[0] == 'C' && item[1] == 'H' {
        let tail = slice_subrange(item, 2, item.len());
        assert(tail@ =~= item@.skip(2));
        tail
    } else {
        item
    };
    match parse_number(digits, 4) {
        Some(n) => if n >= 1 {
            Some(n as usize)
        } else {
            None
        },
        None => None,
    }
}

fn note_item(flags: &mut [bool; 4], item: &[char]) -> (r: bool)
    ensures
        forall|more: Seq<Seq<char>>|
            #![trigger flags_with(old(flags)@, seq![item@] + more)]
            flags_with(old(flags)@, seq![item@] + more) == (if r {
                flags_with(final(flags)@, more)
            } else {
                None
            }),
{
    let ghost before = flags@;
    assert forall|more: Seq<Seq<char>>| (seq![item@] + more).drop_first() == more by {
        assert((seq![item@] + more).drop_first() =~= more);
    }
    let name = trim(item);
    if name.len() == 0 {
        return true;
    }
    match read_channel(name) {
        Some(n) => {
            flags[n - 1] = true;
            assert(flags@ =~= before.update(n - 1, true));
            true
        },
        None => false,
    }
}

/// Reads a list of channels.
pub fn parse_channels(value: &str) -> (r: Option<[bool; 4]>)
    ensures
        match r {
            Some(flags) => channel_flags(value@) == Some(flags@),
            None => channel_flags(value@) is None,
        },
{
    let s = chars_of(value);
    let mut flags = [false, false, false, false];
    assert(flags@ =~= seq![false, false, false, false]);
    let mut rest: &[char] = s.as_slice();
    let mut more = true;
    while more
        invariant
            channel_flags(value@) == (if more {
                flags_with(flags@, text::parts(rest@, ','))
            } else {
                Some(flags@)
            }),
        decreases
                (if more {
                    1 + rest@.len()
                } else {
                    0
                }),
    {
        match cut(rest, ',') {
            Some((item, tail)) => {
                assert(text::parts(rest@, ',') == seq![item@] + text::parts(tail@, ','));
                if !note_item(&mut flags, item) {
                    return None;
                }
                rest = tail;
            },
            None => {
                assert(text::parts(rest@, ',') =~= seq![rest@] + Seq::<Seq<char>>::empty());
                if !note_item(&mut flags, rest) {
                    return None;
                }
                more = false;
            },
        }
    }
    Some(flags)
}

impl Default for AppConfig {
    fn default() -> (r: AppConfig)
        ensures
            r@ == Settings::defaults(),
    {
        let r = AppConfig {
            host: String::new(),
            port: 9006,
            user: String::new(),
            password: String::new(),
            stream_name: "N9M-RTSP".to_owned(),
            channels: [true, true, true, true],
            http_bind: "0.0.0.0:8080".to_owned(),
            rtsp_bind: "0.0.0.0:8554".to_owned(),
        };
        assert(r@ =~= Settings::defaults());
        r
    }
}

impl Clone for AppConfig {
    fn clone(&self) -> (r: AppConfig)
        ensures
            r == *self,
    {
        AppConfig {
            host: self.host.clone(),
            port: self.port,
            user: self.user.clone(),
            password: self.password.clone(),
            stream_name: self.stream_name.clone(),
            channels: self.channels,
            http_bind: self.http_bind.clone(),
            rtsp_bind: self.rtsp_bind.clone(),
        }
    }
}

impl AppConfig {
    fn set(&mut self, key: &[char], value: String)
        ensures
            final(self)@ == old(self)@.with(key@, value@),
    {
        if is_text(key, "host") {
            self.host = value;
        } else if is_text(key, "port") {
            let digits = chars_of(value.as_str());
            match parse_number(digits.as_slice(), 65535) {
                Some(n) => {
                    self.port = n as u16;
                },
                None => {},
            }
        } else if is_text(key, "user") {
            self.user = value;
        } else if is_text(key, "password") {
            self.password = value;
        } else if is_text(key, "stream_name") {
            self.stream_name = value;
        } else if is_text(key, "channels") {
            match parse_channels(value.as_str()) {
                Some(flags) => {
                    self.channels = flags;
                },
                None => {},
            }
        } else if is_text(key, "http_bind") {
            self.http_bind = value;
        } else if is_text(key, "rtsp_bind") {
            self.rtsp_bind = value;
        }
    }

    /// Reads the settings out of the text of a configuration file.
    pub fn from_text(contents: &str) -> (r: AppConfig)
        ensures
            r@ == Settings::defaults().after_lines(text::lines(contents@)),
    {
        let s = chars_of(contents);
        let mut config = AppConfig::default();
        let mut rest: &[char] = s.as_slice();
        while rest.len() > 0
            invariant
                Settings::defaults().after_lines(text::lines(contents@)) == config@.after_lines(
                    text::lines(rest@),
                ),
            decreases rest@.len(),
        {
            let (line, tail) = take_line(rest);
            assert(text::lines(rest@).drop_first() =~= text::lines(tail@));
            let l = trim(line);
            if l.len() > 0 && l[0] != '#' {
                match cut(l, '=') {
                    Some((key, value)) => {
                        let value = string_of(trim(value));
                        config.set(trim(key), unquote(value.as_str()));
                    },
                    None => {},
                }
            }
            rest = tail;
        }
        config
    }
}

/// Lines take effect in order: what comes later starts from what came before.
pub proof fn lines_take_effect_in_order(c: Settings, a: Seq<Seq<char>>, b: Seq<Seq<char>>)
    ensures
        c.after_lines(a + b) == c.after_lines(a).after_lines(b),
    decreases a.len(),
{
    if a.len() == 0 {
        assert(a + b =~= b);
    } else {
        assert((a + b).drop_first() =~= a.drop_first() + b);
        lines_take_effect_in_order(c.after_line(a[0]), a.drop_first(), b);
    }
}

/// What the bridge needs of the settings.
#[derive(Debug)]
pub struct BridgeConfig {
    pub host: String,
    pub port: u16,
    pub user: String,
    pub password: String,
    pub stream_name: String,
    pub channels: [bool; 4],
}

impl Clone for BridgeConfig {
    fn clone(&self) -> (r: BridgeConfig)
        ensures
            r == *self,
    {
        BridgeConfig {
            host: self.host.clone(),
            port: self.port,
            user: self.user.clone(),
            password: self.password.clone(),
            stream_name: self.stream_name.clone(),
            channels: self.channels,
        }
    }
}

impl From<AppConfig> for BridgeConfig {
    fn from(value: AppConfig) -> (r: BridgeConfig) {
        BridgeConfig {
            host: value.host,
            port: value.port,
            user: value.user,
            password: value.password,
            stream_name: value.stream_name,
            channels: value.channels,
        }
    }
}

impl vstd::std_specs::convert::FromSpecImpl<AppConfig> for BridgeConfig {
    open spec fn obeys_from_spec() -> bool {
        true
    }

    open spec fn from_spec(value: AppConfig) -> BridgeConfig {
        BridgeConfig {
            host: value.host,
            port: value.port,
            user: value.user,
            password: value.password,
            stream_name: value.stream_name,
            channels: value.channels,
        }
    }
}

/// Whether a text is white space alone.
pub open spec fn is_blank(s: Seq<char>) -> bool {
    forall|i: int| 0 <= i < s.len() ==> text::is_space(#[trigger] s[i])
}

/// Whether a text has no white space at its ends.
pub open spec fn is_trim(s: Seq<char>) -> bool {
    s.len() > 0 ==> !text::is_space(s[0]) && !text::is_space(s.last())
}

proof fn lemma_names()
    ensures
        text::is_word("host"@) && text::lacks("host"@, '=') && "host"@.len() == 4 && "host"@[0]
            == 'h',
        text::is_word("port"@) && text::lacks("port"@, '=') && "port"@.len() == 4 && "port"@[0]
            == 'p',
        text::is_word("user"@) && text::lacks("user"@, '=') && "user"@.len() == 4 && "user"@[0]
            == 'u',
        text::is_word("password"@) && text::lacks("password"@, '=') && "password"@.len() == 8
            && "password"@[0] == 'p',
        text::is_word("stream_name"@) && text::lacks("stream_name"@, '=') && "stream_name"@.len()
            == 11 && "stream_name"@[0] == 's',
        text::is_word("channels"@) && text::lacks("channels"@, '=') && "channels"@.len() == 8
            && "channels"@[0] == 'c',
        text::is_word("http_bind"@) && text::lacks("http_bind"@, '=') && "http_bind"@.len() == 9
            && "http_bind"@[0] == 'h',
        text::is_word("rtsp_bind"@) && text::lacks("rtsp_bind"@, '=') && "rtsp_bind"@.len() == 9
            && "rtsp_bind"@[0] == 'r',
{
    reveal_strlit("host");
    reveal_strlit("port");
    reveal_strlit("user");
    reveal_strlit("password");
    reveal_strlit("stream_name");
    reveal_strlit("channels");
    reveal_strlit("http_bind");
    reveal_strlit("rtsp_bind");
}

/// A line as it is written: a name, an equals sign and a value, with white space
/// before, between and behind them.
pub open spec fn line_text(
    a: Seq<char>,
    key: Seq<char>,
    b: Seq<char>,
    c: Seq<char>,
    written: Seq<char>,
    e: Seq<char>,
) -> Seq<char> {
    a + (key + b + seq!['='] + (c + written)) + e
}

proof fn lemma_line_read(
    s: Settings,
    a: Seq<char>,
    key: Seq<char>,
    b: Seq<char>,
    c: Seq<char>,
    written: Seq<char>,
    e: Seq<char>,
)
    requires
        is_blank(a) && is_blank(b) && is_blank(c) && is_blank(e),
        text::is_word(key),
        text::lacks(key, '='),
        key[0] != '#',
        is_trim(written),
        written.len() > 0,
    ensures
        s.after_line(line_text(a, key, b, c, written, e)) == s.with(key, unquoted(written)),
{
    let inner = key + b + seq!['='] + (c + written);
    assert(inner[0] == key[0]);
    assert(inner.last() == written.last());
    text::trimming_takes_white_space_off_the_ends(a, inner, e);
    assert(text::lacks(key + b, '=')) by {
        assert forall|i: int| 0 <= i < (key + b).len() implies (#[trigger] (key + b)[i]) != '=' by {
            if i >= key.len() {
                assert(text::is_space(b[i - key.len()]));
            }
        }
    }
    text::lemma_cut_behind(key + b, '=', c + written);
    text::trimming_takes_white_space_off_the_ends(seq![], key, b);
    assert(Seq::<char>::empty() + key + b =~= key + b);
    text::trimming_takes_white_space_off_the_ends(c, written, seq![]);
    assert(c + written + Seq::<char>::empty() =~= c + written);
}

/// A line of a configuration file sets the setting that it names to the value behind
/// the equals sign, and no other one, whatever white space stands around them; the
/// value may stand in quotes, which are no part of it. A port is a number up to
/// 65535.
pub proof fn a_line_sets_what_it_names(
    s: Settings,
    a: Seq<char>,
    b: Seq<char>,
    c: Seq<char>,
    value: Seq<char>,
    quoted: bool,
    e: Seq<char>,
    port: u16,
)
    requires
        is_blank(a) && is_blank(b) && is_blank(c) && is_blank(e),
        !quoted ==> value.len() > 0 && is_trim(value) && (value[0] != '"' || value.last() != '"'),
    ensures
        ({
            let written = if quoted {
                seq!['"'] + value + seq!['"']
            } else {
                value
            };
            let line = |key: Seq<char>| line_text(a, key, b, c, written, e);
            &&& s.after_line(line("host"@)) == (Settings { host: value, ..s })
            &&& s.after_line(line("user"@)) == (Settings { user: value, ..s })
            &&& s.after_line(line("password"@)) == (Settings { password: value, ..s })
            &&& s.after_line(line("stream_name"@)) == (Settings { stream_name: value, ..s })
            &&& s.after_line(line("http_bind"@)) == (Settings { http_bind: value, ..s })
            &&& s.after_line(line("rtsp_bind"@)) == (Settings { rtsp_bind: value, ..s })
            &&& value == number::decimal(port as nat) ==> s.after_line(line("port"@)) == (
            Settings { port, ..s })
            &&& number::parsed(value, 65535) is None ==> s.after_line(line("port"@)) == s
            &&& channel_flags(value) matches Some(flags) ==> s.after_line(line("channels"@)) == (
            Settings { channels: flags, ..s })
            &&& channel_flags(value) is None ==> s.after_line(line("channels"@)) == s
        }),
{
    let written = if quoted {
        seq!['"'] + value + seq!['"']
    } else {
        value
    };
    assert(unquoted(written) == value) by {
        if quoted {
            assert(written.subrange(1, written.len() - 1) =~= value);
        } else if value.len() == 1 {
            assert(value[0] == value.last());
        }
    }
    assert(is_trim(written));
    lemma_names();
    lemma_line_read(s, a, "host"@, b, c, written, e);
    lemma_line_read(s, a, "port"@, b, c, written, e);
    lemma_line_read(s, a, "user"@, b, c, written, e);
    lemma_line_read(s, a, "password"@, b, c, written, e);
    lemma_line_read(s, a, "stream_name"@, b, c, written, e);
    lemma_line_read(s, a, "channels"@, b, c, written, e);
    lemma_line_read(s, a, "http_bind"@, b, c, written, e);
    lemma_line_read(s, a, "rtsp_bind"@, b, c, written, e);
    number::lemma_decimal_parsed(port as nat, 65535);
}

/// Lines of white space, lines that start with `#` behind white space, and lines
/// without an equals sign set nothing; neither do names that are not known.
pub proof fn other_lines_set_nothing(s: Settings, a: Seq<char>, rest: Seq<char>, line: Seq<char>)
    requires
        is_blank(a),
        text::lacks(line, '='),
    ensures
        s.after_line(a) == s,
        s.after_line(a + seq!['#'] + rest) == s,
        s.after_line(line) == s,
        forall|key: Seq<char>, value: Seq<char>|
            key != "host"@ && key != "port"@ && key != "user"@ && key != "password"@ && key
                != "stream_name"@ && key != "channels"@ && key != "http_bind"@ && key
                != "rtsp_bind"@ ==> #[trigger] s.with(key, value) == s,
{
    text::lemma_trimmed_blank(a);
    let l = a + seq!['#'] + rest;
    text::lemma_space_in_front(a, seq!['#'] + rest);
    assert(l =~= a + (seq!['#'] + rest));
    assert(text::trimmed_start(seq!['#'] + rest) == seq!['#'] + rest);
    text::lemma_trimmed_end_parts(seq!['#'] + rest);
    let t = text::trimmed(l);
    if t.len() > 0 {
        assert(t[0] == (seq!['#'] + rest)[0]);
    }
    let m = text::trimmed_start(line);
    text::lemma_trimmed_start_parts(line);
    text::lemma_trimmed_end_parts(m);
    let u = text::trimmed(line);
    assert(text::lacks(u, '=')) by {
        assert forall|i: int| 0 <= i < u.len() implies (#[trigger] u[i]) != '=' by {
            assert(u[i] == m[i]);
            assert(m[i] == line[line.len() - m.len() + i]);
        }
    }
    text::lemma_cut_behind(u, '=', seq![]);
}

/// A channel is named by its number from 1 to 4, alone or behind `CH`; nothing
/// below 1 or above 4 is one.
pub proof fn channels_are_named_by_number(n: nat)
    ensures
        channel_number(number::decimal(n)) == (if 1 <= n <= 4 {
            Some(n)
        } else {
            None
        }),
        channel_number(seq!['C', 'H'] + number::decimal(n)) == (if 1 <= n <= 4 {
            Some(n)
        } else {
            None
        }),
        forall|item: Seq<char>| (#[trigger] channel_number(item)) matches Some(k) ==> 1 <= k <= 4,
{
    number::lemma_decimal_parsed(n, 4);
    let d = number::decimal(n);
    assert(number::is_digit(d[0]));
    assert((seq!['C', 'H'] + d).skip(2) =~= d);
}

/// Whether an item of a list names a channel.
pub open spec fn names(item: Seq<char>, n: int) -> bool {
    channel_number(text::trimmed(item)) == Some(n as nat)
}

/// A list of channels sets the flags of the channels that its items name, and no
/// others; blank items name none. One item that is neither blank nor a channel
/// spoils the list.
pub proof fn lists_set_the_named_channels(flags: Seq<bool>, items: Seq<Seq<char>>)
    requires
        flags.len() == 4,
    ensures
        match flags_with(flags, items) {
            Some(r) => {
                &&& r.len() == 4
                &&& forall|n: int|
                    1 <= n <= 4 ==> (#[trigger] r[n - 1] <==> flags[n - 1] || exists|i: int|
                        0 <= i < items.len() && names(#[trigger] items[i], n))
                &&& forall|i: int|
                    0 <= i < items.len() ==> is_blank(#[trigger] items[i]) || channel_number(
                        text::trimmed(items[i]),
                    ) is Some
            },
            None => exists|i: int|
                0 <= i < items.len() && !is_blank(#[trigger] items[i]) && channel_number(
                    text::trimmed(items[i]),
                ) is None,
        },
    decreases items.len(),
{
    if items.len() > 0 {
        let more = items.drop_first();
        text::lemma_trimmed_blank(items[0]);
        channels_are_named_by_number(0);
        let blank = text::trimmed(items[0]).len() == 0;
        let named = channel_number(text::trimmed(items[0]));
        if blank || named is Some {
            let next = if blank {
                flags
            } else {
                flags.update(named->Some_0 - 1, true)
            };
            lists_set_the_named_channels(next, more);
            assert(flags_with(flags, items) == flags_with(next, more));
            if blank {
                assert(named is None) by {
                    assert(text::trimmed(items[0]) =~= seq![]);
                }
            }
            match flags_with(next, more) {
                Some(r) => {
                    assert forall|n: int| 1 <= n <= 4 implies (#[trigger] r[n - 1] <==> flags[n - 1]
                        || exists|i: int| 0 <= i < items.len() && names(#[trigger] items[i],
                            n)) by {
                        if exists|i: int| 0 <= i < more.len() && names(#[trigger] more[i], n) {
                            let i = choose|i: int| 0 <= i < more.len() && names(#[trigger] more[i],
                                n);
                            assert(names(items[i + 1], n));
                        }
                        if exists|i: int| 0 <= i < items.len() && names(#[trigger] items[i], n) {
                            let i = choose|i: int|
                                0 <= i < items.len() && names(#[trigger] items[i], n);
                            if i > 0 {
                                assert(names(more[i - 1], n));
                            }
                        }
                        if next[n - 1] && !flags[n - 1] {
                            assert(names(items[0], n));
                        }
                    }
                    assert forall|i: int| 0 <= i < items.len() implies is_blank(#[trigger] items[i])
                        || channel_number(text::trimmed(items[i])) is Some by {
                        if i > 0 {
                            assert(items[i] == more[i - 1]);
                        }
                    }
                },
                None => {
                    let i = choose|i: int|
                        0 <= i < more.len() && !is_blank(#[trigger] more[i]) && channel_number(
                            text::trimmed(more[i]),
                        ) is None;
                    assert(items[i + 1] == more[i]);
                },
            }
        } else {
            assert(!is_blank(items[0]));
        }
    }
}

/// The value of `channels` is read item by item between its commas, from no channel
/// on.
pub proof fn lists_are_read_item_by_item(first: Seq<char>, rest: Seq<char>)
    requires
        text::lacks(first, ','),
    ensures
        channel_flags(first) == flags_with(seq![false, false, false, false], seq![first]),
        channel_flags(first + seq![','] + rest) == flags_with(
            seq![false, false, false, false],
            seq![first] + text::parts(rest, ','),
        ),
{
    text::parts_make_up_the_text(first, ',', rest);
}

/// Without a configuration file there is no device and no user, all four channels
/// are enabled, and the usual ports are used.
pub proof fn nothing_is_set_at_first()
    ensures
        ({
            let s = Settings::defaults();
            &&& s.host.len() == 0 && s.user.len() == 0 && s.password.len() == 0
            &&& s.port == 9006
            &&& s.stream_name == "N9M-RTSP"@
            &&& s.http_bind == "0.0.0.0:8080"@
            &&& s.rtsp_bind == "0.0.0.0:8554"@
            &&& s.channels.len() == 4
            &&& forall|i: int| 0 <= i < 4 ==> s.channels[i]
        }),
{
}

/// The lines of a file are its settings, one after the other: a file of one line
/// more is that line after the file.
pub proof fn files_are_read_line_by_line(s: Settings, ls: Seq<Seq<char>>, line: Seq<char>)
    requires
        forall|i: int| 0 <= i < ls.len() ==> text::lacks(#[trigger] ls[i], '\n'),
        text::lacks(line, '\n'),
    ensures
        s.after_lines(text::lines(Seq::<char>::empty())) == s,
        s.after_lines(text::lines(text::with_line_ends(ls) + line)) == s.after_lines(
            text::lines(text::with_line_ends(ls)),
        ).after_line(line),
{
    text::lines_are_told_apart(ls, line);
    text::lines_are_told_apart(ls, seq![]);
    text::the_last_line_needs_no_ending(line);
    text::the_last_line_needs_no_ending(seq![]);
    assert(text::with_line_ends(ls) + Seq::<char>::empty() =~= text::with_line_ends(ls));
    assert(ls + Seq::<Seq<char>>::empty() =~= ls);
    let before = s.after_lines(ls);
    if line.len() == 0 {
        other_lines_set_nothing(before, line, seq![], line);
    } else {
        lines_take_effect_in_order(s, ls, seq![line]);
        assert(seq![line].drop_first() =~= seq![]);
        assert(before.after_line(line).after_lines(seq![]) == before.after_line(line));
    }
}

/// The bridge is given the settings of the application as they are.
pub proof fn the_bridge_gets_the_settings(c: AppConfig)
    ensures
        ({
            let b = <BridgeConfig as vstd::std_specs::convert::FromSpec<AppConfig>>::from_spec(c);
            &&& b.host@ == c@.host
            &&& b.port == c@.port
            &&& b.user@ == c@.user
            &&& b.password@ == c@.password
            &&& b.stream_name@ == c@.stream_name
            &&& b.channels@ == c@.channels
        }),
{
}

/// A value may be empty: then the setting is empty, too.
pub proof fn a_line_may_set_nothing(s: Settings, a: Seq<char>, b: Seq<char>, c: Seq<char>)
    requires
        is_blank(a) && is_blank(b) && is_blank(c),
    ensures
        ({
            let none = Seq::<char>::empty();
            let line = |key: Seq<char>| a + (key + b + seq!['=']) + c;
            &&& s.after_line(line("host"@)) == (Settings { host: none, ..s })
            &&& s.after_line(line("user"@)) == (Settings { user: none, ..s })
            &&& s.after_line(line("password"@)) == (Settings { password: none, ..s })
            &&& s.after_line(line("stream_name"@)) == (Settings { stream_name: none, ..s })
            &&& s.after_line(line("http_bind"@)) == (Settings { http_bind: none, ..s })
            &&& s.after_line(line("rtsp_bind"@)) == (Settings { rtsp_bind: none, ..s })
            &&& s.after_line(line("port"@)) == s
        }),
{
    lemma_names();
    lemma_empty_line(s, a, "host"@, b, c);
    lemma_empty_line(s, a, "port"@, b, c);
    lemma_empty_line(s, a, "user"@, b, c);
    lemma_empty_line(s, a, "password"@, b, c);
    lemma_empty_line(s, a, "stream_name"@, b, c);
    lemma_empty_line(s, a, "http_bind"@, b, c);
    lemma_empty_line(s, a, "rtsp_bind"@, b, c);
}

proof fn lemma_empty_line(
    s: Settings,
    a: Seq<char>,
    key: Seq<char>,
    b: Seq<char>,
    c: Seq<char>,
)
    requires
        is_blank(a) && is_blank(b) && is_blank(c),
        text::is_word(key),
        text::lacks(key, '='),
        key[0] != '#',
    ensures
        s.after_line(a + (key + b + seq!['=']) + c) == s.with(key, Seq::<char>::empty()),
{
    let inner = key + b + seq!['='];
    assert(inner[0] == key[0]);
    assert(inner.last() == '=');
    text::trimming_takes_white_space_off_the_ends(a, inner, c);
    assert(text::lacks(key + b, '=')) by {
        assert forall|i: int| 0 <= i < (key + b).len() implies (#[trigger] (key + b)[i]) != '=' by {
            if i >= key.len() {
                assert(text::is_space(b[i - key.len()]));
            }
        }
    }
    text::lemma_cut_behind(key + b, '=', seq![]);
    assert(inner =~= key + b + seq!['='] + Seq::<char>::empty());
    text::trimming_takes_white_space_off_the_ends(seq![], key, b);
    assert(Seq::<char>::empty() + key + b =~= key + b);
    text::trimming_takes_white_space_off_the_ends(seq![], seq![], seq![]);
    assert(Seq::<char>::empty() + Seq::<char>::empty() + Seq::<char>::empty() =~= Seq::<
        char,
    >::empty());
}

/// A port or a channel is whatever text makes a number that fits: a port up to 65535, a
/// channel from 1 to 4, behind `CH` or alone.
pub proof fn numbers_are_taken_where_they_fit(s: Settings, value: Seq<char>, item: Seq<char>)
    requires
        item.len() < 2 || item[0] != 'C' || item[1] != 'H',
    ensures
        number::parsed(value, 65535) matches Some(n) ==> s.with("port"@, value) == (Settings {
            port: n as u16,
            ..s
        }),
        number::parsed(item, 4) matches Some(n) ==> n >= 1 ==> channel_number(item) == Some(n)
            && channel_number(seq!['C', 'H'] + item) == Some(n),
        (number::parsed(item, 4) is None || number::parsed(item, 4) == Some(0nat))
            ==> channel_number(item) is None && channel_number(seq!['C', 'H'] + item) is None,
{
    lemma_names();
    assert((seq!['C', 'H'] + item).skip(2) =~= item);
}

} // verus!
