use romv::convert::convert_filename;
use romv::convert::convert_segments;
use romv::convert::is_japanese;

#[test]
fn ascii_unchanged() {
    assert_eq!(convert_filename("hello.txt", '_'), "hello.txt");
}

#[test]
fn hiragana() {
    let result = convert_filename("にほんご.txt", '_');
    assert_eq!(result, "nihongo.txt");
}

#[test]
fn katakana() {
    let result = convert_filename("テスト.txt", '_');
    assert_eq!(result, "tesuto.txt");
}

#[test]
fn kanji() {
    assert_eq!(convert_filename("日本語.md", '_'), "nihongo.md");
}

#[test]
fn hidden_file() {
    assert_eq!(convert_filename(".にほんご", '_'), ".nihongo");
}

#[test]
fn hidden_file_with_ext() {
    assert_eq!(convert_filename(".テスト.conf", '_'), ".tesuto.conf");
}

#[test]
fn space_replacement() {
    assert_eq!(
        convert_filename("新しい ファイル.txt", '_'),
        "atarashii_fairu.txt"
    );
}

#[test]
fn custom_separator() {
    assert_eq!(
        convert_filename("新しい ファイル.txt", '-'),
        "atarashii-fairu.txt"
    );
}

#[test]
fn empty_string() {
    assert_eq!(convert_filename("", '_'), "");
}

#[test]
fn dots_only() {
    assert_eq!(convert_filename(".", '_'), ".");
    assert_eq!(convert_filename("..", '_'), "..");
}

#[test]
fn no_extension() {
    let result = convert_filename("テスト", '_');
    assert_eq!(result, "tesuto");
}

#[test]
fn digits_preserved_adjacent_to_kanji() {
    assert_eq!(convert_filename("第10回.mp4", '_'), "dai10kai.mp4");
}

#[test]
fn mixed_japanese_ascii_digits() {
    assert_eq!(convert_filename("報告書_v2.pdf", '_'), "houkokusho_v2.pdf");
}

#[test]
fn classifier_ranges() {
    assert!(is_japanese('あ'));
    assert!(is_japanese('ア'));
    assert!(is_japanese('語'));
    assert!(is_japanese('ｱ'));
    assert!(!is_japanese('a'));
    assert!(!is_japanese('0'));
    assert!(!is_japanese('.'));
    assert!(!is_japanese(' '));
}

#[test]
fn segments_strip_engine_spaces() {
    // The engine inserts a space between the two words; the segment
    // transliterator removes it because the input itself held none.
    assert_eq!(convert_segments("新しいファイル", '_'), "atarashiifairu");
}

#[test]
fn segments_pass_through() {
    assert_eq!(convert_segments("abc 123", '_'), "abc_123");
    assert_eq!(convert_segments("", '_'), "");
}

#[test]
fn extension_with_japanese_kept() {
    // The extension is never transliterated, even when it is Japanese.
    assert_eq!(convert_filename("テスト.テスト", '_'), "tesuto.テスト");
}

#[test]
fn conversion_is_stable_on_converted_name() {
    let once = convert_filename("テスト.txt", '_');
    let twice = convert_filename(&once, '_');
    assert_eq!(once, twice);
}
