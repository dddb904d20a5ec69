//! Connection strings: `key=value` settings with semicolons between them.

use crate::client::ClientError;
use crate::params::{digits_value, is_digit};
use crate::text::chars_of;
use vstd::prelude::*;
use vstd::string::StringExecFns;

verus! {

/// Whether a character is white space: one of the 25 characters that have
/// the Unicode property White_Space.
pub open spec fn is_white_space(c: char) -> bool {
    let n = c as u32;
    (0x09 <= n <= 0x0d) || n == 0x20 || n == 0x85 || n == 0xa0 || n == 0x1680 || (0x2000 <= n
        <= 0x200a) || n == 0x2028 || n == 0x2029 || n == 0x202f || n == 0x205f || n == 0x3000
}

/// The first place from `i` on that holds no white space, or the length of
/// the text where there is none.
pub open spec fn text_start(s: Seq<char>, i: int) -> int
    decreases s.len() - i,
{
    if i < 0 || i >= s.len() {
        s.len() as int
    } else if !is_white_space(s[i]) {
        i
    } else {
        text_start(s, i + 1)
    }
}

/// The place behind the last character among the first `n` that is no white
/// space, or `0` where there is none.
pub open spec fn text_end(s: Seq<char>, n: int) -> int
    decreases n,
{
    if n <= 0 || n > s.len() {
        0
    } else if !is_white_space(s[n - 1]) {
        n
    } else {
        text_end(s, n - 1)
    }
}

/// A text without the white space at its start and at its end.
pub open spec fn trimmed(s: Seq<char>) -> Seq<char> {
    let from = text_start(s, 0);
    let to = text_end(s, s.len() as int);
    if from < to {
        s.subrange(from, to)
    } else {
        Seq::empty()
    }
}

/// What `str::to_lowercase` makes of a text.
pub uninterp spec fn lowercased(s: Seq<char>) -> Seq<char>;

/// `str::trim` returns the text without the white space at its start and at
/// its end, white space being the characters of the Unicode property
/// White_Space.
#[verifier::external_body]
fn trim(s: &str) -> (t: &str)
    ensures
        t@ == trimmed(s@),
{
    s.trim()
}

/// `str::to_lowercase` returns the text in lower case, as Unicode defines it.
/// What that is for a given text is left to `lowercased`.
#[verifier::external_body]
fn to_lowercase(s: &str) -> (t: String)
    ensures
        t@ == lowercased(s@),
{
    s.to_lowercase()
}

/// How to reach a server and log in to it.
#[derive(Debug, Clone, PartialEq, Eq)]
pub struct ConnectionConfig {
    pub server: String,
    pub port: u16,
    pub database: String,
    pub user: String,
    pub password: String,
    pub trust_cert: bool,
}

/// What a configuration holds.
pub struct ConfigModel {
    pub server: Seq<char>,
    pub port: u16,
    pub database: Seq<char>,
    pub user: Seq<char>,
    pub password: Seq<char>,
    pub trust_cert: bool,
}

impl View for ConnectionConfig {
    type V = ConfigModel;

    open spec fn view(&self) -> ConfigModel {
        ConfigModel {
            server: self.server@,
            port: self.port,
            database: self.database@,
            user: self.user@,
            password: self.password@,
            trust_cert: self.trust_cert,
        }
    }
}

/// The configuration of a connection string without settings: the database
/// `master` of the server `localhost` at port 1433, no user, no password, and
/// a server certificate that is checked.
pub open spec fn default_config() -> ConfigModel {
    ConfigModel {
        server: "localhost"@,
        port: 1433,
        database: "master"@,
        user: Seq::empty(),
        password: Seq::empty(),
        trust_cert: false,
    }
}

/// The first place from `i` on that holds `c`, or the length of the text
/// where there is none.
pub open spec fn next_index(s: Seq<char>, c: char, i: int) -> int
    decreases s.len() - i,
{
    if i < 0 || i >= s.len() {
        s.len() as int
    } else if s[i] == c {
        i
    } else {
        next_index(s, c, i + 1)
    }
}

/// The last place that holds `c` among the first `n` of the text, or `-1`
/// where there is none.
pub open spec fn last_index(s: Seq<char>, c: char, n: int) -> int
    decreases n,
{
    if n <= 0 || n > s.len() {
        -1
    } else if s[n - 1] == c {
        n - 1
    } else {
        last_index(s, c, n - 1)
    }
}

/// The pieces into which the separator `sep` cuts the text from place `i`
/// on: one more than there are separators, an empty piece among them
/// wherever two separators meet or one stands at an end.
pub open spec fn split_from(s: Seq<char>, sep: char, i: int) -> Seq<Seq<char>>
    decreases s.len() - i,
{
    let j = next_index(s, sep, i);
    if 0 <= i <= j < s.len() {
        seq![s.subrange(i, j)] + split_from(s, sep, j + 1)
    } else if 0 <= i <= s.len() {
        seq![s.subrange(i, s.len() as int)]
    } else {
        Seq::empty()
    }
}

/// The lower-case letter of an upper-case ASCII letter, any other character
/// as it is.
pub open spec fn ascii_lower(c: char) -> char {
    if 'A' <= c <= 'Z' {
        ((c as u8) + 32) as char
    } else {
        c
    }
}

/// Whether two texts are the same but for the case of their ASCII letters.
pub open spec fn same_ignoring_ascii_case(a: Seq<char>, b: Seq<char>) -> bool {
    a.map_values(|c: char| ascii_lower(c)) == b.map_values(|c: char| ascii_lower(c))
}

/// Whether a text holds nothing but digits.
pub open spec fn all_digits(s: Seq<char>) -> bool {
    forall|i: int| 0 <= i < s.len() ==> is_digit(#[trigger] s[i])
}

/// A text without the `+` that it may start with.
pub open spec fn without_plus(s: Seq<char>) -> Seq<char> {
    if s.len() > 0 && s[0] == '+' {
        s.drop_first()
    } else {
        s
    }
}

/// The port that a text writes: an optional `+` and then decimal digits, at
/// least one, of a number up to 65535. Any other text writes none.
pub open spec fn port_number(s: Seq<char>) -> Option<u16> {
    let digits = without_plus(s);
    if digits.len() > 0 && all_digits(digits) && digits_value(digits) <= 65535 {
        Some(digits_value(digits) as u16)
    } else {
        None
    }
}

/// The configuration after the setting `key=value`, the key given in lower
/// case. A server may carry a port behind its last comma, and a port that is
/// no port number is an error. A key that names no setting changes nothing.
pub open spec fn setting_applied(config: ConfigModel, key: Seq<char>, value: Seq<char>) -> Result<
    ConfigModel,
    (),
> {
    if key == "server"@ || key == "data source"@ {
        let comma = last_index(value, ',', value.len() as int);
        if comma >= 0 {
            match port_number(value.skip(comma + 1)) {
                Some(port) => Ok(ConfigModel { server: value.take(comma), port, ..config }),
                None => Err(()),
            }
        } else {
            Ok(ConfigModel { server: value, ..config })
        }
    } else if key == "database"@ || key == "initial catalog"@ {
        Ok(ConfigModel { database: value, ..config })
    } else if key == "uid"@ || key == "user id"@ || key == "user"@ {
        Ok(ConfigModel { user: value, ..config })
    } else if key == "pwd"@ || key == "password"@ {
        Ok(ConfigModel { password: value, ..config })
    } else if key == "trustservercertificate"@ {
        Ok(
            ConfigModel {
                trust_cert: same_ignoring_ascii_case(value, "yes"@) || same_ignoring_ascii_case(
                    value,
                    "true"@,
                ),
                ..config
            },
        )
    } else {
        Ok(config)
    }
}

/// The configuration after one piece of a connection string. The piece is
/// trimmed; what is left is a key and a value with the first `=` between
/// them, the key trimmed and put in lower case, the value trimmed. A piece
/// that is empty or holds no `=` changes nothing.
pub open spec fn piece_applied(config: ConfigModel, piece: Seq<char>) -> Result<ConfigModel, ()> {
    let p = trimmed(piece);
    let eq = next_index(p, '=', 0);
    if p.len() == 0 || eq >= p.len() {
        Ok(config)
    } else {
        setting_applied(config, lowercased(trimmed(p.take(eq))), trimmed(p.skip(eq + 1)))
    }
}

/// The configuration after the pieces in their order, or the first error.
pub open spec fn pieces_applied(config: ConfigModel, pieces: Seq<Seq<char>>) -> Result<
    ConfigModel,
    (),
>
    decreases pieces.len(),
{
    if pieces.len() == 0 {
        Ok(config)
    } else {
        match piece_applied(config, pieces[0]) {
            Ok(next) => pieces_applied(next, pieces.drop_first()),
            Err(e) => Err(e),
        }
    }
}

/// The configuration that a connection string writes.
pub open spec fn parsed_config(s: Seq<char>) -> Result<ConfigModel, ()> {
    pieces_applied(default_config(), split_from(s, ';', 0))
}

/// A connection string without any text writes the default configuration.
pub proof fn lemma_empty_string_gives_defaults()
    ensures
        parsed_config(Seq::empty()) == Ok::<ConfigModel, ()>(default_config()),
{
    let none = Seq::<char>::empty();
    let pieces = split_from(none, ';', 0);
    assert(none.subrange(0, 0) =~= none);
    assert(pieces =~= seq![none]);
    assert(trimmed(none) =~= none);
    assert(piece_applied(default_config(), pieces[0]) == Ok::<ConfigModel, ()>(default_config()));
    assert(pieces.drop_first() =~= Seq::<Seq<char>>::empty());
    assert(pieces_applied(default_config(), pieces.drop_first()) == Ok::<ConfigModel, ()>(
        default_config(),
    ));
}

/// Whether two texts are the same.
fn same_text(a: &str, b: &str) -> (same: bool)
    ensures
        same == (a@ == b@),
{
    let x = chars_of(a);
    let y = chars_of(b);
    if x.len() != y.len() {
        return false;
    }
    let mut i: usize = 0;
    while i < x.len()
        invariant
            i <= x@.len(),
            x@.len() == y@.len(),
            x@ == a@,
            y@ == b@,
            forall|k: int| 0 <= k < i ==> x@[k] == y@[k],
        decreases x@.len() - i,
    {
        if x[i] != y[i] {
            assert(a@[i as int] != b@[i as int]);
            return false;
        }
        i = i + 1;
    }
    assert(x@ =~= y@);
    true
}

fn to_ascii_lower(c: char) -> (l: char)
    ensures
        l == ascii_lower(c),
{
    if 'A' <= c && c <= 'Z' {
        ((c as u8) + 32) as char
    } else {
        c
    }
}

/// Tells whether two texts are the same but for the case of their ASCII
/// letters.
pub fn eq_ignore_ascii_case(a: &str, b: &str) -> (same: bool)
    ensures
        same == same_ignoring_ascii_case(a@, b@),
{
    let x = chars_of(a);
    let y = chars_of(b);
    let ghost lx = a@.map_values(|c: char| ascii_lower(c));
    let ghost ly = b@.map_values(|c: char| ascii_lower(c));
    if x.len() != y.len() {
        assert(lx.len() != ly.len());
        return false;
    }
    let mut i: usize = 0;
    while i < x.len()
        invariant
            i <= x@.len(),
            x@.len() == y@.len(),
            x@ == a@,
            y@ == b@,
            lx == a@.map_values(|c: char| ascii_lower(c)),
            ly == b@.map_values(|c: char| ascii_lower(c)),
            forall|k: int| 0 <= k < i ==> lx[k] == ly[k],
        decreases x@.len() - i,
    {
        if to_ascii_lower(x[i]) != to_ascii_lower(y[i]) {
            assert(lx[i as int] != ly[i as int]);
            return false;
        }
        i = i + 1;
    }
    assert(lx =~= ly);
    true
}

/// The text of `chars[from..to]`.
fn text_of(chars: &Vec<char>, from: usize, to: usize) -> (s: String)
    requires
        from <= to <= chars@.len(),
    ensures
        s@ == chars@.subrange(from as int, to as int),
{
    let mut s = String::new();
    let mut i: usize = from;
    while i < to
        invariant
            from <= i <= to <= chars@.len(),
            s@ == chars@.subrange(from as int, i as int),
        decreases to - i,
    {
        s.push(chars[i]);
        i = i + 1;
        assert(s@ =~= chars@.subrange(from as int, i as int));
    }
    s
}

/// Finds the first place from `start` on that holds `c`.
fn find_next(chars: &Vec<char>, c: char, start: usize) -> (at: usize)
    requires
        start <= chars@.len(),
    ensures
        at == next_index(chars@, c, start as int),
        start <= at <= chars@.len(),
{
    let mut i: usize = start;
    while i < chars.len() && chars[i] != c
        invariant
            start <= i <= chars@.len(),
            next_index(chars@, c, i as int) == next_index(chars@, c, start as int),
        decreases chars@.len() - i,
    {
        i = i + 1;
    }
    i
}

/// Finds the last place that holds `c`.
fn find_last(chars: &Vec<char>, c: char) -> (at: Option<usize>)
    ensures
        match at {
            Some(k) => k == last_index(chars@, c, chars@.len() as int) && k < chars@.len(),
            None => last_index(chars@, c, chars@.len() as int) == -1,
        },
{
    let mut n: usize = chars.len();
    while n > 0 && chars[n - 1] != c
        invariant
            n <= chars@.len(),
            last_index(chars@, c, n as int) == last_index(chars@, c, chars@.len() as int),
        decreases n,
    {
        n = n - 1;
    }
    if n > 0 {
        Some(n - 1)
    } else {
        None
    }
}

/// Reads a port number.
pub fn parse_port(s: &str) -> (port: Option<u16>)
    ensures
        port == port_number(s@),
{
    let chars = chars_of(s);
    let start: usize = if chars.len() > 0 && chars[0] == '+' {
        1
    } else {
        0
    };
    let ghost digits = chars@.subrange(start as int, chars@.len() as int);
    proof {
        if start == 1 {
            assert(digits =~= s@.drop_first());
        } else {
            assert(digits =~= s@);
        }
    }
    if start == chars.len() {
        return None;
    }
    let mut n: u32 = 0;
    let mut i: usize = start;
    while i < chars.len()
        invariant
            start <= i <= chars@.len(),
            start < chars@.len(),
            digits == chars@.subrange(start as int, chars@.len() as int),
            digits == without_plus(s@),
            forall|k: int| 0 <= k < i - start ==> is_digit(#[trigger] digits[k]),
            n == digits_value(digits.take(i - start)),
            n <= 65535,
        decreases chars@.len() - i,
    {
        let c = chars[i];
        if !('0' <= c && c <= '9') {
            assert(digits[i - start] == c);
            assert(!is_digit(digits[i - start]));
            return None;
        }
        let d: u32 = c as u32 - 48;
        proof {
            let run = digits.take(i - start + 1);
            assert(run.drop_last() =~= digits.take(i - start));
            assert(run.last() == c);
        }
        n = n * 10 + d;
        if n > 65535 {
            proof {
                if all_digits(digits) {
                    lemma_digits_value_grows(digits, i - start + 1);
                }
            }
            return None;
        }
        i = i + 1;
    }
    assert(digits.take(i - start) =~= digits);
    Some(n as u16)
}

/// The number that a run of digits writes is no less than the number that
/// the digits at its start write.
pub proof fn lemma_digits_value_grows(digits: Seq<char>, n: int)
    requires
        0 <= n <= digits.len(),
        all_digits(digits),
    ensures
        digits_value(digits.take(n)) <= digits_value(digits),
    decreases digits.len() - n,
{
    if n == digits.len() {
        assert(digits.take(n) =~= digits);
    } else {
        let longer = digits.take(n + 1);
        assert(longer.drop_last() =~= digits.take(n));
        assert(is_digit(digits[n]));
        assert(longer.last() == digits[n]);
        lemma_digits_value_grows(digits, n + 1);
    }
}

impl ConnectionConfig {
    /// The configuration of a connection string without settings.
    pub fn new() -> (config: ConnectionConfig)
        ensures
            config@ == default_config(),
    {
        ConnectionConfig {
            server: String::from_str("localhost"),
            port: 1433,
            database: String::from_str("master"),
            user: String::new(),
            password: String::new(),
            trust_cert: false,
        }
    }

    /// Applies the setting `key=value`. The key is given trimmed and in lower
    /// case, the value trimmed.
    pub fn apply_setting(self, key: &str, value: &str) -> (r: Result<
        ConnectionConfig,
        ClientError,
    >)
        ensures
            match r {
                Ok(config) => setting_applied(self@, key@, value@) == Ok::<ConfigModel, ()>(
                    config@,
                ),
                Err(e) => e == ClientError::InvalidPort && setting_applied(self@, key@, value@)
                    is Err,
            },
    {
        let mut config = self;
        if same_text(key, "server") || same_text(key, "data source") {
            let chars = chars_of(value);
            let found = find_last(&chars, ',');
            match found {
                Some(comma) => {
                    assert(comma < chars.len());
                    let port_text = text_of(&chars, comma + 1, chars.len());
                    proof {
                        assert(value@.skip(comma + 1) =~= chars@.subrange(
                            comma + 1,
                            chars@.len() as int,
                        ));
                        assert(value@.take(comma as int) =~= chars@.subrange(0, comma as int));
                    }
                    match parse_port(port_text.as_str()) {
                        Some(port) => {
                            config.server = text_of(&chars, 0, comma);
                            config.port = port;
                        },
                        None => {
                            return Err(ClientError::InvalidPort);
                        },
                    }
                },
                None => {
                    config.server = String::from_str(value);
                },
            }
        } else if same_text(key, "database") || same_text(key, "initial catalog") {
            config.database = String::from_str(value);
        } else if same_text(key, "uid") || same_text(key, "user id") || same_text(key, "user") {
            config.user = String::from_str(value);
        } else if same_text(key, "pwd") || same_text(key, "password") {
            config.password = String::from_str(value);
        } else if same_text(key, "trustservercertificate") {
            config.trust_cert = eq_ignore_ascii_case(value, "yes") || eq_ignore_ascii_case(
                value,
                "true",
            );
        }
        Ok(config)
    }

    /// Applies one piece of a connection string.
    fn apply_piece(self, piece: &str) -> (r: Result<ConnectionConfig, ClientError>)
        ensures
            match r {
                Ok(config) => piece_applied(self@, piece@) == Ok::<ConfigModel, ()>(config@),
                Err(e) => e == ClientError::InvalidPort && piece_applied(self@, piece@) is Err,
            },
    {
        let p = trim(piece);
        let chars = chars_of(p);
        if chars.len() == 0 {
            return Ok(self);
        }
        let eq = find_next(&chars, '=', 0);
        if eq >= chars.len() {
            return Ok(self);
        }
        let key_text = text_of(&chars, 0, eq);
        let value_text = text_of(&chars, eq + 1, chars.len());
        proof {
            assert(p@.take(eq as int) =~= chars@.subrange(0, eq as int));
            assert(p@.skip(eq + 1) =~= chars@.subrange(eq + 1, chars@.len() as int));
        }
        let key = to_lowercase(trim(key_text.as_str()));
        let value = trim(value_text.as_str());
        self.apply_setting(key.as_str(), value)
    }
}

/// Reads a connection string: settings `key=value` with semicolons between
/// them. The keys are read without regard to case and to white space around
/// them; settings that are not known are passed over.
///
/// Fails with `InvalidPort` if a server setting carries, behind its last
/// comma, what is no port number.
pub fn parse_conn_str(s: &str) -> (r: Result<ConnectionConfig, ClientError>)
    ensures
        match r {
            Ok(config) => parsed_config(s@) == Ok::<ConfigModel, ()>(config@),
            Err(e) => e == ClientError::InvalidPort && parsed_config(s@) is Err,
        },
{
    let chars = chars_of(s);
    let mut config = ConnectionConfig::new();
    let mut start: usize = 0;
    loop
        invariant
            start <= chars@.len(),
            chars@ == s@,
            pieces_applied(config@, split_from(chars@, ';', start as int)) == parsed_config(s@),
        decreases chars@.len() - start,
    {
        let end = find_next(&chars, ';', start);
        let piece = text_of(&chars, start, end);
        let ghost rest = if end < chars@.len() {
            split_from(chars@, ';', end + 1)
        } else {
            Seq::<Seq<char>>::empty()
        };
        proof {
            let pieces = split_from(chars@, ';', start as int);
            assert(pieces =~= seq![piece@] + rest);
            assert(pieces[0] == piece@);
            assert(pieces.drop_first() =~= rest);
        }
        match config.apply_piece(piece.as_str()) {
            Ok(next) => {
                assert(rest.len() == 0 ==> pieces_applied(next@, rest) == Ok::<ConfigModel, ()>(
                    next@,
                ));
                config = next;
            },
            Err(e) => {
                return Err(e);
            },
        }
        if end >= chars.len() {
            return Ok(config);
        }
        start = end + 1;
    }
}

} // verus!
