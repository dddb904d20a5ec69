use rowsink::client::ClientError;
use rowsink::config::{eq_ignore_ascii_case, parse_conn_str, parse_port, ConnectionConfig};

fn parsed(s: &str) -> ConnectionConfig {
    parse_conn_str(s).unwrap()
}

#[test]
fn empty_string_gives_the_defaults() {
    let c = parsed("");
    assert_eq!(c, ConnectionConfig::new());
    assert_eq!(c.server, "localhost");
    assert_eq!(c.port, 1433);
    assert_eq!(c.database, "master");
    assert_eq!(c.user, "");
    assert_eq!(c.password, "");
    assert!(!c.trust_cert);
    assert_eq!(parsed(";;  ; ;"), ConnectionConfig::new());
}

#[test]
fn all_settings() {
    let c = parsed(
        "Server=db.example.com,1444;Database=shop;User Id=sa;Password=secret;TrustServerCertificate=yes",
    );
    assert_eq!(c.server, "db.example.com");
    assert_eq!(c.port, 1444);
    assert_eq!(c.database, "shop");
    assert_eq!(c.user, "sa");
    assert_eq!(c.password, "secret");
    assert!(c.trust_cert);
}

#[test]
fn other_names_of_the_settings() {
    let c = parsed("data source=h;initial catalog=d;uid=u;pwd=p");
    assert_eq!((c.server.as_str(), c.database.as_str()), ("h", "d"));
    assert_eq!((c.user.as_str(), c.password.as_str()), ("u", "p"));
    assert_eq!(parsed("user=someone").user, "someone");
    assert_eq!(c.port, 1433);
}

#[test]
fn keys_are_trimmed_and_lower_cased() {
    let c = parsed("  SERVER = host ;\tDataBase\t=\tdb\n; USER ID = me ");
    assert_eq!(c.server, "host");
    assert_eq!(c.database, "db");
    assert_eq!(c.user, "me");
}

#[test]
fn unicode_white_space_is_trimmed() {
    let c = parsed("\u{00a0}server\u{3000}=\u{2003}h\u{2028}");
    assert_eq!(c.server, "h");
}

#[test]
fn values_keep_their_inner_spaces_and_case() {
    let c = parsed("database =  My Shop  ;pwd= P w D ");
    assert_eq!(c.database, "My Shop");
    assert_eq!(c.password, "P w D");
}

#[test]
fn the_first_equals_sign_ends_the_key() {
    assert_eq!(parsed("pwd=a=b=c").password, "a=b=c");
    assert_eq!(parsed("pwd==").password, "=");
    assert_eq!(parsed("pwd=").password, "");
    assert_eq!(parsed("=x"), ConnectionConfig::new());
}

#[test]
fn a_later_setting_takes_the_place_of_an_earlier() {
    let c = parsed("server=a,1;server=b;database=x;initial catalog=y");
    assert_eq!(c.server, "b");
    assert_eq!(c.port, 1);
    assert_eq!(c.database, "y");
}

#[test]
fn unknown_keys_and_pieces_without_equals_are_passed_over() {
    let c = parsed("encrypt=true;nonsense;server=h;app name=x");
    assert_eq!(c.server, "h");
    assert_eq!(c.database, "master");
}

#[test]
fn the_port_stands_behind_the_last_comma() {
    let c = parsed("server=a,b,99");
    assert_eq!(c.server, "a,b");
    assert_eq!(c.port, 99);
    let c = parsed("server=h,+80");
    assert_eq!(c.port, 80);
    let c = parsed("server= h ,65535");
    assert_eq!(c.server, "h ");
    assert_eq!(c.port, 65535);
    let c = parsed("server=,0");
    assert_eq!(c.server, "");
    assert_eq!(c.port, 0);
}

#[test]
fn a_bad_port_is_an_error() {
    for s in [
        "server=h,abc",
        "server=h,",
        "server=h, 1433",
        "server=h,65536",
        "server=h,-1",
        "server=h,1433x",
        "server=h,+",
        "server=h,12 34",
        "server=h,99999999999999999999",
        "data source=h,1.5",
        "database=x;server=h,bad;database=y",
    ] {
        assert_eq!(parse_conn_str(s), Err(ClientError::InvalidPort), "{}", s);
    }
}

#[test]
fn trust_of_the_certificate() {
    for yes in ["yes", "YES", "Yes", "true", "TRUE", "tRuE"] {
        assert!(parsed(&format!("TrustServerCertificate={}", yes)).trust_cert, "{}", yes);
    }
    for no in ["no", "false", "1", "", "yes!", "ye", "truee", "ÿes"] {
        assert!(!parsed(&format!("TrustServerCertificate={}", no)).trust_cert, "{}", no);
    }
    assert!(!parsed("trustservercertificate=yes;trustservercertificate=no").trust_cert);
}

#[test]
fn apply_setting_takes_the_key_as_it_is() {
    let c = ConnectionConfig::new().apply_setting("server", "x,7").unwrap();
    assert_eq!((c.server.as_str(), c.port), ("x", 7));
    let c = ConnectionConfig::new().apply_setting("Server", "x,7").unwrap();
    assert_eq!(c, ConnectionConfig::new());
    let c = ConnectionConfig::new().apply_setting(" server", "x").unwrap();
    assert_eq!(c, ConnectionConfig::new());
    assert_eq!(
        ConnectionConfig::new().apply_setting("data source", "x,y"),
        Err(ClientError::InvalidPort)
    );
}

#[test]
fn port_numbers_are_read_as_the_standard_library_reads_them() {
    for s in [
        "0", "1", "80", "1433", "65535", "65536", "99999", "000080", "+80", "+0", "++1", "-0",
        "", "+", " 1", "1 ", "1_000", "0x10", "٣", "12a", "a12", "4294967377", "655350",
    ] {
        assert_eq!(parse_port(s), s.parse::<u16>().ok(), "{:?}", s);
    }
}

#[test]
fn ascii_case_is_ignored_as_the_standard_library_ignores_it() {
    let samples = ["", "yes", "YES", "yEs", "ye", "yes ", "ÿes", "ŸES", "true", "TRUE", "Kelvin", "kelvin", "[", "{", "@", "`"];
    for a in samples {
        for b in samples {
            assert_eq!(eq_ignore_ascii_case(a, b), a.eq_ignore_ascii_case(b), "{:?} {:?}", a, b);
        }
    }
}

/// A small generator of numbers, the same on every run.
struct Lcg(u64);

impl Lcg {
    fn next(&mut self, bound: usize) -> usize {
        self.0 = self
            .0
            .wrapping_mul(6364136223846793005)
            .wrapping_add(1442695040888963407);
        ((self.0 >> 33) as usize) % bound
    }
}

/// The reading written with the standard library's own splitting and parsing.
fn read_by_hand(s: &str) -> Result<ConnectionConfig, ClientError> {
    let mut c = ConnectionConfig::new();
    for part in s.split(';') {
        let part = part.trim();
        if part.is_empty() {
            continue;
        }
        if let Some((key, val)) = part.split_once('=') {
            let key = key.trim().to_lowercase();
            let val = val.trim();
            match key.as_str() {
                "server" | "data source" => {
                    if let Some((h, p)) = val.rsplit_once(',') {
                        c.server = h.to_string();
                        c.port = p.parse().map_err(|_| ClientError::InvalidPort)?;
                    } else {
                        c.server = val.to_string();
                    }
                }
                "database" | "initial catalog" => c.database = val.to_string(),
                "uid" | "user id" | "user" => c.user = val.to_string(),
                "pwd" | "password" => c.password = val.to_string(),
                "trustservercertificate" => {
                    c.trust_cert =
                        val.eq_ignore_ascii_case("yes") || val.eq_ignore_ascii_case("true")
                }
                _ => {}
            }
        }
    }
    Ok(c)
}

#[test]
fn many_strings_against_a_reading_by_hand() {
    let pieces = [
        "server", "Server", "DATA SOURCE", "database", "Initial Catalog", "uid", "User Id",
        "user", "pwd", "PASSWORD", "TrustServerCertificate", "=", "=", "=", ";", ";", ";", ",",
        ",", " ", "\t", "1", "14", "65535", "65536", "+", "-", "x", "host", "yes", "TRUE", "no",
        "é", "\u{00a0}", "İ",
    ];
    let mut lcg = Lcg(11);
    for _ in 0..4000 {
        let len = lcg.next(12);
        let s: String = (0..len).map(|_| pieces[lcg.next(pieces.len())]).collect();
        assert_eq!(parse_conn_str(&s), read_by_hand(&s), "{:?}", s);
    }
}

/// The characters that have the Unicode property White_Space.
fn in_the_list(c: char) -> bool {
    matches!(
        c as u32,
        0x09..=0x0d
            | 0x20
            | 0x85
            | 0xa0
            | 0x1680
            | 0x2000..=0x200a
            | 0x2028
            | 0x2029
            | 0x202f
            | 0x205f
            | 0x3000
    )
}

#[test]
fn white_space_is_the_list_of_25_characters() {
    let mut count = 0;
    for n in 0..=0x10ffffu32 {
        if let Some(c) = char::from_u32(n) {
            assert_eq!(c.is_whitespace(), in_the_list(c), "{:#x}", n);
            if in_the_list(c) {
                count += 1;
            }
        }
    }
    assert_eq!(count, 25);
}

#[test]
fn exactly_the_white_space_is_trimmed() {
    let mut n = 0u32;
    while n <= 0x10ffff {
        if let Some(c) = char::from_u32(n) {
            if c != ';' {
                let s = format!("{}database{}={}{}x y{}{}", c, c, c, c, c, c);
                let config = parse_conn_str(&s).unwrap();
                let expected = if in_the_list(c) { "x y" } else { "master" };
                assert_eq!(config.database, expected, "{:#x}", n);
                let s = format!("database={}{}x y{}{}", c, c, c, c);
                let expected = if in_the_list(c) {
                    "x y".to_string()
                } else {
                    format!("{}{}x y{}{}", c, c, c, c)
                };
                assert_eq!(parse_conn_str(&s).unwrap().database, expected, "{:#x}", n);
            }
        }
        n += if n < 0x3100 { 1 } else { 257 };
    }
}
