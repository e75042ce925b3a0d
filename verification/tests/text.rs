use dictata_engine::model::{
    check_dir, custom, meta_i32, meta_usize, pick_model, resolve_input, shape_dim,
    threads_for_native, Host, Metadata, ModelDir,
};
use dictata_engine::text::{
    decimal_i64, decimal_u128, decimal_usize, is_white_space, parse_i32, parse_usize, show_list,
    trim,
};
use dictata_engine::tokens::{detokenize, load_tokens, parse_tokens, position, token_ids_fit};
use dictata_engine::AsrError;

fn strings(list: &[&str]) -> Vec<String> {
    list.iter().map(|s| s.to_string()).collect()
}

#[test]
fn white_space_is_what_char_says_it_is() {
    for code in 0..=0x10ffffu32 {
        if let Some(c) = char::from_u32(code) {
            assert_eq!(is_white_space(c), c.is_whitespace(), "U+{code:04X}");
        }
    }
}

#[test]
fn trimming_drops_white_space_at_both_ends_only() {
    for s in ["", " ", "a", " a b ", "\u{3000}\tx\u{a0}y\n", "\u{200b}z"] {
        assert_eq!(trim(s), s.trim());
        assert_eq!(trim(&trim(s)), s.trim());
    }
}

#[test]
fn numbers_parse_as_std_parses_them() {
    for s in [
        "", "+", "-", "0", "-0", "+7", "007", "42", " 42", "4 2", "2147483647", "2147483648",
        "-2147483648", "-2147483649", "18446744073709551615", "18446744073709551616", "1e3", "--1",
        "+-1", "\u{0661}",
    ] {
        assert_eq!(parse_usize(s), s.parse::<usize>().ok(), "{s}");
        assert_eq!(parse_i32(s), s.parse::<i32>().ok(), "{s}");
    }
}

#[test]
fn numbers_are_written_in_decimal() {
    for n in [0u128, 7, 10, 12_345, u128::MAX] {
        assert_eq!(decimal_u128(n), n.to_string());
    }
    for n in [0usize, 99, usize::MAX] {
        assert_eq!(decimal_usize(n), n.to_string());
    }
    for n in [0i64, -1, 512, i64::MIN, i64::MAX] {
        assert_eq!(decimal_i64(n), n.to_string());
    }
    assert_eq!(show_list(&[]), "[]");
    assert_eq!(show_list(&[1, -2, 30]), format!("{:?}", [1i64, -2, 30]));
}

#[test]
fn a_vocabulary_is_read_line_by_line() {
    let table = parse_tokens("<blk> 0\r\n\u{2581}he 2\nllo\t3\n\nnot a number\nlonely\na b 1\nlast 3 \nnew 3");
    // "last 3 " ends in a space, so its last field is empty and the line is skipped.
    assert_eq!(table, strings(&["<blk>", "a b", "\u{2581}he", "new"]));
    // Ids may leave holes; a symbol may be empty.
    assert_eq!(parse_tokens(" 2\nx 0"), strings(&["x", "", ""]));
    assert_eq!(parse_tokens("y +1"), strings(&["", "y"]));
    assert!(token_ids_fit("a 5\nb 6"));
    assert!(!token_ids_fit("a 18446744073709551615"));
    assert!(token_ids_fit("a 18446744073709551616"));
}

#[test]
fn a_later_line_wins_over_an_earlier_one() {
    assert_eq!(parse_tokens("a 0\nb 0\nc 1"), strings(&["b", "c"]));
}

#[test]
fn vocabulary_errors() {
    match load_tokens("moonshine", &Err("denied".into())) {
        Err(AsrError::Load(m)) => assert_eq!(m, "moonshine tokens.txt: denied"),
        _ => panic!("an unreadable file is a load error"),
    }
    for text in ["", "\n\n", "nothing here\n"] {
        match load_tokens("zipformer", &Ok(text.to_string())) {
            Err(AsrError::Load(m)) => assert_eq!(m, "zipformer tokens.txt is empty or malformed"),
            _ => panic!("an empty table is a load error"),
        }
    }
    assert_eq!(load_tokens("sensevoice", &Ok("a 0".to_string())).ok().unwrap(), strings(&["a"]));
}

#[test]
fn bytes_that_are_no_text_are_replaced() {
    let tokens = strings(&["<0xC3>", "\u{2581}ok", "<0x28>", "<0xE2>", "<0x82>", "<0xAC>"]);
    assert_eq!(detokenize(&[0, 2], &tokens), "\u{fffd}(");
    assert_eq!(detokenize(&[0, 1], &tokens), "\u{fffd} ok");
    assert_eq!(detokenize(&[1, 3, 4, 5], &tokens), "ok\u{20ac}");
    // Ids outside the table are skipped.
    assert_eq!(detokenize(&[-1, 1, 99, i64::MAX], &tokens), "ok");
    assert_eq!(detokenize(&[], &tokens), "");
}

#[test]
fn the_first_place_of_a_symbol_is_found() {
    let tokens = strings(&["a", "b", "a"]);
    assert_eq!(position(&tokens, "a"), Some(0));
    assert_eq!(position(&tokens, "b"), Some(1));
    assert_eq!(position(&tokens, "c"), None);
}

// --- model directories ---

fn dir(files: &[&str]) -> ModelDir {
    ModelDir {
        shown: "models/m".into(),
        exists: true,
        utf8_len: Some(8),
        files: strings(files),
    }
}

const LINUX: Host = Host { windows: false, parallelism: Some(16) };
const WINDOWS: Host = Host { windows: true, parallelism: None };

#[test]
fn thread_counts_are_bounded() {
    assert_eq!(LINUX.threads(), 8);
    assert_eq!(WINDOWS.threads(), 4);
    assert_eq!(Host { windows: false, parallelism: Some(0) }.threads(), 1);
    assert_eq!(Host { windows: false, parallelism: Some(6) }.threads(), 6);
    assert_eq!(threads_for_native(LINUX), 8);
    assert_eq!(threads_for_native(WINDOWS), 4);
    assert_eq!(threads_for_native(Host { windows: false, parallelism: Some(3) }), 3);
}

#[test]
fn a_quantized_model_is_preferred() {
    assert_eq!(
        pick_model(&dir(&["encode.onnx", "encode.int8.onnx"]), "encode").ok().unwrap(),
        "encode.int8.onnx"
    );
    assert_eq!(pick_model(&dir(&["encode.onnx"]), "encode").ok().unwrap(), "encode.onnx");
    match pick_model(&dir(&["other.onnx"]), "encode") {
        Err(AsrError::ModelNotFound(m)) => {
            assert_eq!(m, "no encode.int8.onnx or encode.onnx in models/m");
        }
        _ => panic!("neither file is there"),
    }
}

#[test]
fn long_paths_are_refused_on_windows_only() {
    let mut long = dir(&[]);
    long.utf8_len = Some(231);
    assert!(check_dir("moonshine", &long, LINUX).is_ok());
    match check_dir("moonshine", &long, WINDOWS) {
        Err(AsrError::Load(m)) => assert_eq!(
            m,
            "moonshine model directory path too long (231 chars, Windows limit ~260): models/m"
        ),
        _ => panic!("231 characters are too many"),
    }
    long.utf8_len = Some(230);
    assert!(check_dir("moonshine", &long, WINDOWS).is_ok());
    long.utf8_len = None;
    assert!(check_dir("moonshine", &long, WINDOWS).is_ok());
    long.exists = false;
    match check_dir("moonshine", &long, WINDOWS) {
        Err(AsrError::ModelNotFound(m)) => {
            assert_eq!(m, "moonshine model directory not found: models/m");
        }
        _ => panic!("an absent directory is not found"),
    }
}

#[test]
fn inputs_are_resolved_by_name_then_by_place() {
    let names = strings(&["b", "x"]);
    assert_eq!(resolve_input(&names, "x", 0), "x");
    assert_eq!(resolve_input(&names, "y", 0), "b");
}

#[test]
fn shape_dimensions_are_never_negative() {
    assert_eq!(shape_dim(&[1, 750, 288], 1), 750);
    assert_eq!(shape_dim(&[1, -1], 1), 0);
    assert_eq!(shape_dim(&[1], 1), 0);
}

#[test]
fn metadata_falls_back_to_the_default() {
    let meta: Metadata = vec![
        ("a".into(), " 7 ".into()),
        ("b".into(), "-3".into()),
        ("c".into(), "seven".into()),
    ];
    assert_eq!(custom(&meta, "a").as_deref(), Some(" 7 "));
    assert_eq!(custom(&meta, "z"), None);
    assert_eq!(meta_usize(&meta, "a", 1), 7);
    assert_eq!(meta_usize(&meta, "b", 1), 1);
    assert_eq!(meta_i32(&meta, "b", 1), -3);
    assert_eq!(meta_i32(&meta, "c", 1), 1);
    assert_eq!(meta_i32(&meta, "z", 9), 9);
}
