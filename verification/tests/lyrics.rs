use nadt::json::parse_json;
use nadt::lrc::{convert_lyrics, meta_line, normalise_meta, parse_lrc, plain_line};

#[test]
fn meta_lines_get_a_time_and_spaced_colons() {
    let line = r#"{"t":0,"c":[{"tx":"作词: "},{"tx":"Abel Tesfaye"}]}"#;
    assert_eq!(parse_lrc(line.as_bytes()), "[00:00.00] 作词 : Abel Tesfaye".as_bytes());
    assert_eq!(
        convert_lyrics(r#"{"t":83456,"c":[{"tx":"x"},{"li":1},{"tx":"y"}]}"#),
        "[01:23.45] xy"
    );
}

#[test]
fn plain_lines_get_two_decimals() {
    assert_eq!(
        parse_lrc(b"[00:03.619] Oh woah, woah, oh, oh"),
        b"[00:03.61] Oh woah, woah, oh, oh"
    );
    assert_eq!(plain_line("[1:2]x"), "[01:02.00]x");
    assert_eq!(plain_line("[1:2.5]x"), "[01:02.50]x");
    assert_eq!(plain_line("[ 100 :07.9x8]"), "[100:07.98]");
    assert_eq!(plain_line("[+1:+2.3]"), "[01:02.30]");
}

#[test]
fn other_lines_stay() {
    for line in ["[ti:Title]", "[00:1a.2]x", "[00:01", "text", "[4294967296:00]", "[00: 1]"] {
        assert_eq!(plain_line(line), line);
    }
}

#[test]
fn a_converted_line_is_stable() {
    for line in ["[00:03.619] x", "[ 7 :1]", "[100:59.999]y]z"] {
        let once = plain_line(line);
        assert_eq!(plain_line(&once), once);
    }
}

#[test]
fn repeated_stamps_and_the_order_stay() {
    let text = "[00:01.000]one\r\n[00:01.000]eins\n\n  \n\u{feff}[00:02.5]two\n";
    assert_eq!(convert_lyrics(text), "[00:01.00]one\n[00:01.00]eins\n[00:02.50]two");
    let (a, b) = ("[00:01.1]a\n", "b\n[00:02.22]c");
    assert_eq!(
        convert_lyrics(&format!("{a}{b}")),
        format!("{}\n{}", convert_lyrics(a), convert_lyrics(b))
    );
}

#[test]
fn json_without_text_gives_no_line() {
    assert_eq!(convert_lyrics("{\"t\":1,\"c\":[]}\n12\n\"x\"\nnull\n{\"t\":5}"), "");
    assert!(meta_line(&parse_json("{\"c\":[{\"tx\":\"\"}]}").unwrap()).is_none());
    assert_eq!(
        meta_line(&parse_json("{\"t\":\"5\",\"c\":[{\"tx\":\"a\"}]}").unwrap()).unwrap(),
        "[00:00.00] a"
    );
}

#[test]
fn negative_times_are_printed_as_they_divide() {
    let json = parse_json("{\"t\":-61230,\"c\":[{\"tx\":\"a\"}]}").unwrap();
    let want = format!("[{:02}:{:02}.{:02}] a", -61230i64 / 60000, (-61230i64 % 60000) / 1000, (-61230i64 % 1000) / 10);
    assert_eq!(meta_line(&json).unwrap(), want);
}

#[test]
fn colons_are_spaced() {
    assert_eq!(normalise_meta("作词: X"), "作词 : X");
    assert_eq!(normalise_meta("作曲：  Y "), "作曲 : Y");
    assert_eq!(normalise_meta("a：b:c"), "a：b : c");
    assert_eq!(normalise_meta(" none "), " none ");
}

#[test]
fn invalid_bytes_are_replaced() {
    assert_eq!(parse_lrc(b"a\xffb"), "a\u{fffd}b".as_bytes());
    assert_eq!(parse_lrc(b""), b"");
}

#[test]
fn json_values_are_read() {
    let json = parse_json(r#"{"a":[1,2.5,true,null],"b":"t","n":-7}"#).unwrap();
    let list = json.get_array("a").unwrap();
    assert_eq!(list.len(), 4);
    assert_eq!(list[0].as_i64(), Some(1));
    assert_eq!(list[1].as_i64(), None);
    assert_eq!(json.get_str("b"), Some("t"));
    assert_eq!(json.get("n").unwrap().as_i64(), Some(-7));
    assert!(json.get("zz").is_none());
    assert!(json.get_str("n").is_none());
    assert!(list[0].get("a").is_none());
    assert!(parse_json("{").is_none());
    assert!(parse_json("[00:01.00]x").is_none());
}

#[test]
fn files_are_converted_in_parts() {
    let parts: [&[u8]; 8] = [
        b"",
        b"\n",
        b" \r",
        b"[00:01.000]one",
        b"[00:01.000]eins\r",
        b"{\"t\":1000,\"c\":[{\"tx\":\"a: b\"}]}\n",
        "\u{feff}[00:02.5]zwei\u{e9}".as_bytes(),
        b"a\xffb\xe2\x82",
    ];
    for x in parts {
        for y in parts {
            let (a, b) = (parse_lrc(x), parse_lrc(y));
            let want = if a.is_empty() {
                b
            } else if b.is_empty() {
                a
            } else {
                [a, vec![10], b].concat()
            };
            assert_eq!(parse_lrc(&[x, b"\n", y].concat()), want);
        }
    }
}
