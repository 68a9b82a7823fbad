use kobo_core::cpu::CpuError;
use kobo_core::expand::{summarize, Diagnostic, Pass};

#[test]
fn a_repeated_error_is_summarized_once() {
    let brk = CpuError::Brk {
        pb: 0x93,
        pc: 0x9D9F,
    };
    let cop = CpuError::Cop {
        pb: 0x01,
        pc: 0x8000,
    };
    let diagnostic = |pass, error: &CpuError| Diagnostic {
        pass,
        error: error.clone(),
    };
    let lines = summarize(&[
        diagnostic(Pass::Player, &brk),
        diagnostic(
            Pass::Sprite {
                id: 0xB9,
                x: 1,
                y: 19,
            },
            &cop,
        ),
        diagnostic(Pass::Slotless { camera: (16, 0) }, &brk),
    ]);
    assert_eq!(
        lines,
        [
            "player entrance: BRK at $93:9D9F (and 1 more pass)",
            "sprite B9 at tile (1, 19): COP at $01:8000",
        ]
    );
    assert!(summarize(&[]).is_empty());
}

#[test]
fn many_passes_and_negative_cameras() {
    let error = CpuError::Sa1(Box::new(CpuError::Halted { pb: 0, pc: 0x1234 }));
    let d = |x: i32| Diagnostic {
        pass: Pass::SpriteLoader { camera: (x, -32) },
        error: error.clone(),
    };
    let lines = summarize(&[d(-16), d(0), d(16), d(32)]);
    assert_eq!(
        lines,
        ["sprite loader with the camera at (-16, -32): on the SA-1: CPU halted (STP) at $00:1234 (and 3 more passes)"]
    );
}
