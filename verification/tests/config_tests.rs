use bondriver_mirakurun::config::{parse_leading_int, parse_port, strip_quotes, Config, Ini};

const SAMPLE: &str = "; BonDriver_Mirakurun settings\r\n[global]\r\nSERVER_HOST=\"192.168.0.10\"\r\nserver_port = 40772\r\n# comment\r\nDECODE_B25=1\r\nPRIORITY = -5 \r\nSERVICE_SPLIT=1\r\n[OTHER]\r\nSERVER_HOST=elsewhere\r\n";

#[test]
fn config_from_ini_text_reads_global_section() {
    let cfg = Config::from_ini_text(SAMPLE);
    assert_eq!(cfg.server_host, "192.168.0.10");
    assert_eq!(cfg.server_port, "40772");
    assert_eq!(cfg.decode_b25, 1);
    assert_eq!(cfg.priority, -5);
    assert_eq!(cfg.service_split, 1);
    assert_eq!(cfg.port_num(), 40772);
}

#[test]
fn config_defaults_when_missing() {
    let cfg = Config::from_ini_text("");
    assert_eq!(cfg.server_host, "localhost");
    assert_eq!(cfg.server_port, "8888");
    assert_eq!(cfg.decode_b25, 0);
    assert_eq!(cfg.priority, 0);
    assert_eq!(cfg.service_split, 0);
    assert_eq!(cfg.port_num(), 8888);
}

#[test]
fn config_from_ini_bytes_replaces_invalid_utf8() {
    let mut bytes = b"[GLOBAL]\nSERVER_HOST=tv\xffbox\nPRIORITY=3".to_vec();
    bytes.push(b'\n');
    let cfg = Config::from_ini_bytes(&bytes);
    assert_eq!(cfg.server_host, "tv\u{fffd}box");
    assert_eq!(cfg.priority, 3);
}

#[test]
fn ini_last_setting_wins_and_case_is_ignored() {
    let ini = Ini::parse("[Global]\nKey=first\nkey = second\n[other]\nKEY=third");
    assert_eq!(ini.get_string("GLOBAL", "KEY", "none"), "second");
    assert_eq!(ini.get_string("global", "Key", "none"), "second");
    assert_eq!(ini.get_string("OTHER", "key", "none"), "third");
    assert_eq!(ini.get_string("missing", "key", "none"), "none");
}

#[test]
fn ini_keys_before_any_section_belong_to_the_empty_section() {
    let ini = Ini::parse("a=1\n[ s ]\nb=2\n");
    assert_eq!(ini.get_int("", "A", 0), 1);
    assert_eq!(ini.get_int("S", "b", 0), 2);
    assert_eq!(ini.get_int("S", "a", 9), 9);
}

#[test]
fn ini_ignores_lines_without_equals_and_comments() {
    let ini = Ini::parse("[G]\njunk line\n;x=1\n#y=2\n  z = \" spaced \"  \nw==v\n");
    assert_eq!(ini.get_string("G", "x", "-"), "-");
    assert_eq!(ini.get_string("G", "y", "-"), "-");
    assert_eq!(ini.get_string("G", "z", "-"), " spaced ");
    assert_eq!(ini.get_string("G", "w", "-"), "=v");
}

#[test]
fn ini_get_int_reads_leading_integer() {
    let ini = Ini::parse("[G]\na=42abc\nb=\" 17 \"\nc=abc\nd=+8\ne=-\nf=99999999999\n");
    assert_eq!(ini.get_int("G", "a", -1), 42);
    assert_eq!(ini.get_int("G", "b", -1), 17);
    assert_eq!(ini.get_int("G", "c", -1), -1);
    assert_eq!(ini.get_int("G", "d", -1), 8);
    assert_eq!(ini.get_int("G", "e", -1), -1);
    assert_eq!(ini.get_int("G", "f", -1), -1);
    assert_eq!(ini.get_int("G", "missing", 5), 5);
}

#[test]
fn leading_int_edges() {
    assert_eq!(parse_leading_int("2147483647"), Some(2147483647));
    assert_eq!(parse_leading_int("2147483648"), None);
    assert_eq!(parse_leading_int("-2147483648"), Some(-2147483648));
    assert_eq!(parse_leading_int("-2147483649"), None);
    assert_eq!(parse_leading_int("  -0012x"), Some(-12));
    assert_eq!(parse_leading_int("+"), None);
    assert_eq!(parse_leading_int(""), None);
    assert_eq!(parse_leading_int("--1"), None);
}

#[test]
fn strip_quotes_removes_one_pair() {
    assert_eq!(strip_quotes("\"abc\""), "abc");
    assert_eq!(strip_quotes("\"\"x\"\""), "\"x\"");
    assert_eq!(strip_quotes("\""), "\"");
    assert_eq!(strip_quotes("\"\""), "");
    assert_eq!(strip_quotes("abc\""), "abc\"");
    assert_eq!(strip_quotes("\"日本\""), "日本");
}

#[test]
fn port_parsing_follows_u16_from_str() {
    assert_eq!(parse_port("40772"), Some(40772));
    assert_eq!(parse_port("+80"), Some(80));
    assert_eq!(parse_port("65535"), Some(65535));
    assert_eq!(parse_port("65536"), None);
    assert_eq!(parse_port("-1"), None);
    assert_eq!(parse_port(" 80"), None);
    assert_eq!(parse_port(""), None);
    assert_eq!(parse_port("+"), None);
    assert_eq!(parse_port("00080"), Some(80));
    let cfg = Config {
        server_host: "h".to_string(),
        server_port: "http".to_string(),
        decode_b25: 0,
        priority: 0,
        service_split: 0,
    };
    assert_eq!(cfg.port_num(), 8888);
}

#[test]
fn formatted_integers_read_back() {
    for n in [0i32, 7, -7, 40772, i32::MAX, i32::MIN] {
        assert_eq!(parse_leading_int(&n.to_string()), Some(n));
    }
    for p in [0u16, 80, 8888, u16::MAX] {
        assert_eq!(parse_port(&p.to_string()), Some(p));
    }
}

#[test]
fn texts_differing_in_name_case_read_alike() {
    let a = Ini::parse("[Global]\nServer_Host = \"MyBox\"\n; Comment\nPriority=2\n");
    let b = Ini::parse("[GLOBAL]\nSERVER_HOST = \"MyBox\"\n; COMMENT\npriority=2\n");
    for (s, k) in [("global", "server_host"), ("GLOBAL", "PRIORITY"), ("Global", "missing")] {
        assert_eq!(a.get_string(s, k, "d"), b.get_string(s, k, "d"));
        assert_eq!(a.get_int(s, k, -1), b.get_int(s, k, -1));
    }
    assert_eq!(a.get_string("GLOBAL", "SERVER_HOST", "d"), "MyBox");
}
