use comrak::parser::inlines::special::CharTables;
use comrak::parser::options::Options;

#[test]
fn default_tables() {
    let options = Options::default();
    let t = CharTables::new(&options);
    assert!(t.special_char_bytes[b'*' as usize]);
    assert!(t.special_char_bytes[b'\n' as usize]);
    assert!(!t.special_char_bytes[b'a' as usize]);
    assert!(!t.special_char_bytes[b'~' as usize]);
    assert!(!t.special_char_bytes[b':' as usize]);
    assert!(t.smart_char_bytes[b'\'' as usize]);
    assert!(t.emph_delim_bytes[b'_' as usize]);
    assert!(!t.emph_delim_bytes[b'~' as usize]);
    assert!(!t.skip_char_bytes[b'~' as usize]);
}

#[test]
fn extension_tables() {
    let mut options = Options::default();
    options.extension.strikethrough = true;
    options.extension.autolink = true;
    options.extension.superscript = true;
    let t = CharTables::new(&options);
    assert!(t.special_char_bytes[b'~' as usize]);
    assert!(t.skip_char_bytes[b'~' as usize]);
    assert!(t.emph_delim_bytes[b'~' as usize]);
    assert!(t.special_char_bytes[b':' as usize]);
    assert!(t.special_char_bytes[b'w' as usize]);
    assert!(t.special_char_bytes[b'^' as usize]);
    assert!(t.emph_delim_bytes[b'^' as usize]);
}

#[test]
fn finds_next_special_byte() {
    let mut options = Options::default();
    let t = CharTables::new(&options);
    assert_eq!(t.find_special_char("abc*d", 0, &options, false), 3);
    assert_eq!(t.find_special_char("abc", 0, &options, false), 3);
    assert_eq!(t.find_special_char("ab'c", 0, &options, false), 4);
    options.parse.smart = true;
    assert_eq!(t.find_special_char("ab'c", 0, &options, false), 2);
    options.extension.superscript = true;
    let t = CharTables::new(&options);
    assert_eq!(t.find_special_char("a^b*", 0, &options, false), 1);
    assert_eq!(t.find_special_char("a^b*", 0, &options, true), 3);
    assert_eq!(t.find_special_char("a^b*", 9, &options, true), 4);
}
