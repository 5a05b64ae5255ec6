use metrowrap::preprocessor::{IncludeAsm, Preprocessor, Symbol};

#[test]
fn test_empty() {
    let (c_lines, rodata_entries) = Preprocessor::preprocess_s_file("empty.s", "");
    assert_eq!(c_lines.len(), 0);
    assert_eq!(rodata_entries.len(), 0);
}

#[test]
fn test_empty_function() {
    let asm_contents = ".section .text\nglabel empty_func";
    let (c_lines, rodata_entries) = Preprocessor::preprocess_s_file("text_only.s", asm_contents);
    assert_eq!(c_lines, Vec::<String>::new());
    assert_eq!(rodata_entries, Vec::<Symbol>::new());
}

#[test]
fn test_simple() {
    let asm_contents = r#"
.set noat
.set noreorder
glabel Bg_Disp_Switch
    addiu      $sp, $sp, -0x10
    sb         $a0, 0x0($sp)
    lbu        $v1, 0x0($sp)
    sb         $v1, %gp_rel(bg_disp_off)($gp)
    addiu      $sp, $sp, 0x10
    jr         $ra
    nop
.size Bg_Disp_Switch, . - Bg_Disp_Switch
    nop
"#;
    let (c_lines, _) = Preprocessor::preprocess_s_file("simple.s", asm_contents);

    // 8 instructions total (including 2 nops) + 2 wrapper lines (asm void { ... })
    let expected_nops = 8;
    assert_eq!(c_lines.len(), expected_nops + 2);
}

#[test]
fn test_rodata_words() {
    let asm_contents = r#"
.section .rodata
.align 3
dlabel literal_515_00552620
    .word 0x00396B08
    .word 0x00396B08
    .word 0x00396AD0
    .word 0x00396B08
    .word 0x00396AD0
    .word 0x00396A30
    .word 0x00396AE8
    .word 0x00396A58
    .word 0x00396B08
    .word 0x00396A78
    .word 0x00000000
    .word 0x00000000
.size literal_515_00552620, . - literal_515_00552620
"#;
    let (c_lines, rodata_entries) = Preprocessor::preprocess_s_file("rodata.s", asm_contents);

    assert_eq!(c_lines.len(), 1);
    let sym = rodata_entries
        .iter()
        .find(|s| s.name == "literal_515_00552620")
        .unwrap();
    assert_eq!(sym.size, 12 * 4);
}

#[test]
fn test_rodata_asciz() {
    let asm_contents = r#"
.section .rodata
.align 2
dlabel foobar
    .asciz "SHAUN PALMER"
.size foobar, . - foobar
"#;
    let (_, rodata_entries) = Preprocessor::preprocess_s_file("asciz.s", asm_contents);

    let sym = rodata_entries.iter().find(|s| s.name == "foobar").unwrap();
    // 12 chars + 1 null terminator
    assert_eq!(sym.size, 13);
}

#[test]
fn test_local_symbol() {
    let asm_contents = r#"
.section .rodata
glabel D_psp_0914A7B8, local
    .word 0x12345678
"#;
    let (c_lines, rodata_entries) = Preprocessor::preprocess_s_file("local.s", asm_contents);

    let sym = rodata_entries
        .iter()
        .find(|s| s.name == "D_psp_0914A7B8")
        .unwrap();
    assert!(sym.local);
    assert!(c_lines[0].starts_with("static "));
}

#[test]
fn test_dollar_symbol() {
    let asm_contents = r#"
.section .rodata
dlabel foo$bar$baz
    .word 0x1234
"#;
    let (_, rodata_entries) = Preprocessor::preprocess_s_file("dollar.s", asm_contents);
    let sym = rodata_entries
        .iter()
        .find(|s| s.name == "foo$bar$baz")
        .unwrap();
    println!("sym: {sym:?}");
    assert!(sym.local); // Symbols with $ are treated as local in this tool
}

#[test]
fn test_rodata_unknown_directive() {
    let asm_contents = ".section .rodata\ndlabel my_literal\n    .weird 0x1234";
    assert!(Preprocessor::try_preprocess_s_file("unknown.s", asm_contents).is_none());
}

#[test]
fn stub_lines_are_exact() {
    let asm_text = ".section .text\nglabel f\n  addiu $sp, $sp, -8\n  jr $ra\n\
               .section .rodata\ndlabel \"@tbl\"\n  .short 1\n  .byte 2\n\
               dlabel a$b, local\n  .double 1.0\n  .ascii \"x\\ty\"\n";
    let (lines, entries) = Preprocessor::preprocess_s_file("___mw___f", asm_text);
    assert_eq!(
        vec![
            "asm void ___mw___f() {".to_string(),
            "  nop".to_string(),
            "  nop".to_string(),
            "}".to_string(),
            "const unsigned char __at__tbl[3] = {0};".to_string(),
            "static const unsigned char a__dollar__b[11] = {0};".to_string(),
        ],
        lines
    );
    assert_eq!(2, entries.len());
    assert_eq!(
        Symbol {
            name: "\"@tbl\"".to_string(),
            size: 3,
            local: false
        },
        entries[0]
    );
    assert_eq!(
        Symbol {
            name: "a$b".to_string(),
            size: 11,
            local: true
        },
        entries[1]
    );
}

#[test]
fn rejected_inputs() {
    // unsupported section
    assert!(Preprocessor::try_preprocess_s_file("f", ".section .data\n").is_none());
    // data before any label
    assert!(Preprocessor::try_preprocess_s_file("f", ".section .rodata\n.word 1\n").is_none());
    // a label without a name
    assert!(Preprocessor::try_preprocess_s_file("f", ".section .rodata\ndlabel\n").is_none());
    // a good file is accepted by both entry points alike
    let good = ".section .rodata\ndlabel x\n.word 1\n";
    let (a, b) = Preprocessor::try_preprocess_s_file("f", good).unwrap();
    let (c, d) = Preprocessor::preprocess_s_file("f", good);
    assert_eq!(a, c);
    assert_eq!(b, d);
}

#[test]
fn invalid_escape_adds_nothing_and_crlf_lines_work() {
    let asm_text = ".section .rodata\r\ndlabel s\r\n.asciz \"a\\q\"\r\n.byte 1\r\n";
    let (_, entries) = Preprocessor::preprocess_s_file("f", asm_text);
    assert_eq!(1, entries[0].size);
    let asm_text2 = ".section .rodata\ndlabel s\n.asciz \"\\x41\\101\"\n";
    let (_, entries2) = Preprocessor::preprocess_s_file("f", asm_text2);
    assert_eq!(3, entries2[0].size);
}

#[test]
fn find_includes_locates_macros() {
    let p = Preprocessor::new(None);
    let content = r#"#include "common.h"

INCLUDE_ASM(
    "tests/data"   ,
    Add
    );
"#;
    let inc = p.find_includes(content);
    assert_eq!(1, inc.len());
    assert_eq!("tests/data/Add.s", inc[0].path);
    assert_eq!("___mw___Add", inc[0].stub_name);
    assert_eq!(&content[inc[0].start..inc[0].end], "INCLUDE_ASM(\n    \"tests/data\"   ,\n    Add\n    )");

    let q = Preprocessor::new(Some("asm/us".to_string()));
    let inc2 = q.find_includes("INCLUDE_RODATA(\"dir/\", D_1234);");
    assert_eq!("asm/us/dir/D_1234.s", inc2[0].path);
    let abs = q.find_includes("INCLUDE_ASM(\"/abs\", f);");
    assert_eq!("/abs/f.s", abs[0].path);
    assert!(p.find_includes("int x;").is_empty());
}

#[test]
fn splice_stubs_replaces_macros() {
    let p = Preprocessor::new(None);
    let content = "a\nINCLUDE_ASM(\"d\", f);\nb\nINCLUDE_ASM(\"d\", g);\nc";
    let inc: Vec<IncludeAsm> = p.find_includes(content);
    assert_eq!(2, inc.len());
    let stubs = vec![Some(vec!["X".to_string(), "Y".to_string()]), None];
    let out = Preprocessor::splice_stubs(content, &inc, &stubs);
    assert_eq!("a\nX\nY\n;\nb\n;\nc", out);

    let none: Vec<IncludeAsm> = Vec::new();
    assert_eq!("plain é text", Preprocessor::splice_stubs("plain é text", &none, &Vec::new()));
}

#[test]
fn asciz_escapes_count_as_the_characters_they_stand_for() {
    let asm_contents = r#"
.section .rodata
.align 2
dlabel esc
    .asciz "a\n\x41\101\u00e9\12"
.size esc, . - esc
"#;
    let (_, rodata_entries) = Preprocessor::preprocess_s_file("esc.s", asm_contents);
    let sym = rodata_entries.iter().find(|s| s.name == "esc").unwrap();
    // a, newline, A, A, e-acute (2 bytes), newline, terminator
    assert_eq!(sym.size, 8);
}

#[test]
fn ascii_with_a_bad_escape_adds_nothing() {
    // a lone octal digit at the end of the text is no valid escape either
    let asm_contents = r#"
.section .rodata
dlabel bad
    .ascii "a\q"
    .ascii "b\7"
.size bad, . - bad
"#;
    let (_, rodata_entries) = Preprocessor::preprocess_s_file("bad.s", asm_contents);
    let sym = rodata_entries.iter().find(|s| s.name == "bad").unwrap();
    assert_eq!(sym.size, 0);
}
