use metrowrap::{
    dependency_path, escape_symbol, parse_elf_flags, rule_source, unescape_symbol, SourceType,
};

#[test]
fn escape_and_unescape_symbols() {
    assert_eq!("foo__at__bar__dollar__baz", escape_symbol("foo.bar$baz"));
    assert_eq!("plain", escape_symbol("plain"));
    assert_eq!("foo.bar$baz", unescape_symbol("foo__at__bar__dollar__baz"));
    assert_eq!("foo.bar$baz", unescape_symbol(&escape_symbol("foo.bar$baz")));
}

#[test]
fn source_names() {
    assert_eq!("<stdin>", SourceType::StdIn.name());
    assert_eq!("a/b.c", SourceType::Path("a/b.c".to_string()).name());
}

#[test]
fn elf_flags_values() {
    assert_eq!(Some(0x10A23001), parse_elf_flags("0x10A23001"));
    assert_eq!(Some(31), parse_elf_flags("0X1f"));
    assert_eq!(Some(16), parse_elf_flags("0x0x10"));
    assert_eq!(Some(42), parse_elf_flags("42"));
    assert_eq!(Some(7), parse_elf_flags("+7"));
    assert_eq!(Some(u32::MAX), parse_elf_flags("4294967295"));
    assert_eq!(None, parse_elf_flags("4294967296"));
    assert_eq!(None, parse_elf_flags("0x100000000"));
    assert_eq!(None, parse_elf_flags(""));
    assert_eq!(None, parse_elf_flags("0x"));
    assert_eq!(None, parse_elf_flags("+"));
    assert_eq!(None, parse_elf_flags("-1"));
    assert_eq!(None, parse_elf_flags("12a"));
}

#[test]
fn gcc_dependency_file_follows_the_object() {
    let src = SourceType::Path("src/x.c".to_string());
    assert_eq!("build/a.o.d", dependency_path("build/a.o", &src, true));
    assert_eq!("a..d", dependency_path("a", &src, true));
    assert_eq!("dir.v/a..d", dependency_path("dir.v/a", &src, true));
    assert_eq!("x.tar.gz.d", dependency_path("x.tar.gz", &src, true));
}

#[test]
fn mw_dependency_file_follows_the_source() {
    let src = SourceType::Path("src/x.c".to_string());
    assert_eq!("src/x.d", dependency_path("build/a.o", &src, false));
    assert_eq!("<stdin>.d", dependency_path("a.o", &SourceType::StdIn, false));
    let hidden = SourceType::Path("dir/.hidden".to_string());
    assert_eq!("dir/.hidden.d", dependency_path("a.o", &hidden, false));
}

#[test]
fn rule_source_only_for_a_path_on_a_terminal() {
    let src = SourceType::Path("src/x.c".to_string());
    assert_eq!(Some("src/x.c".to_string()), rule_source(&src, true));
    assert_eq!(None, rule_source(&src, false));
    assert_eq!(None, rule_source(&SourceType::StdIn, true));
}
