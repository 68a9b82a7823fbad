use kobo_core::addr::SnesAddr;
use kobo_core::asar::{Label, Message, Output, Patch, Version};

#[test]
fn versions_read_as_asar_writes_them() {
    assert_eq!(Version::from_int(10901), Version::pinned());
    assert_eq!(Version::pinned().to_string(), "1.91");
    assert_eq!(Version::from_int(10234).to_string(), "1.2.34");
}

#[test]
fn a_patch_keeps_what_it_is_given_in_order() {
    let p = Patch::source("main.asm".to_string(), "lda #$01".to_string())
        .include_path("lib".to_string())
        .define("level".to_string(), "$105".to_string())
        .define("x".to_string(), "1".to_string())
        .warning("Wfreespace_leaked".to_string(), false);
    assert_eq!(p.main_path(), "main.asm");
    assert_eq!(p.include_paths(), &vec!["lib".to_string()]);
    assert_eq!(
        p.defines(),
        &vec![
            ("level".to_string(), "$105".to_string()),
            ("x".to_string(), "1".to_string())
        ]
    );
    assert_eq!(p.files(), &vec![("main.asm".to_string(), b"lda #$01".to_vec())]);
    assert_eq!(p.warnings(), &vec![("Wfreespace_leaked".to_string(), false)]);
    let q = Patch::new("other.asm".to_string()).file("data.bin".to_string(), vec![1, 2]);
    assert_eq!(q.main_path(), "other.asm");
    assert_eq!(q.files(), &vec![("data.bin".to_string(), vec![1, 2])]);
}

#[test]
fn labels_are_found_by_name() {
    let mut out = Output::default();
    assert_eq!(out.label("main"), None);
    out.labels = vec![
        Label { name: "init".to_string(), addr: SnesAddr::new(0x108000) },
        Label { name: "main".to_string(), addr: SnesAddr::new(0x108010) },
        Label { name: "main".to_string(), addr: SnesAddr::new(0x109000) },
    ];
    assert_eq!(out.label("main"), Some(SnesAddr::new(0x108010)));
    assert_eq!(out.label("nmi"), None);
    let m = Message {
        text: "main.asm:3: error".to_string(),
        raw: "error".to_string(),
        file: Some("main.asm".to_string()),
        line: Some(3),
    };
    assert_eq!(m.to_string(), "main.asm:3: error");
}
