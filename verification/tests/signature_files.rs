use gddumper::archive;
use gddumper::sigs;
use gddumper::sigs::{Cap, Extra, Kind, Sig};

fn sig(module: &str, kind: Kind, name: &str, bytes: Vec<Option<u8>>, capture: Option<(usize, Cap)>, adjust: i64) -> Sig {
    Sig { module: module.to_string(), kind, name: name.to_string(), bytes, capture, adjust }
}

fn same(a: &Sig, b: &Sig) -> bool {
    a.module == b.module
        && a.kind == b.kind
        && a.name == b.name
        && a.bytes == b.bytes
        && a.capture == b.capture
        && a.adjust == b.adjust
}

#[test]
fn the_documented_format_is_read() {
    let src = "
# comment
[GeometryDash.exe]
func   PlayLayer::resetLevel      48 89 5C 24 ?? 57     ; match address
func   Foo::bar                   E8 [rel32] 48 8B D8   ; call target
field  PlayLayer::m_isPaused      80 BB [i32] 00 74 ? +0x4
[libcocos2d.dll]
global GameManager::s_instance    48 8B 05 [RIP] -16
vslot  PlayLayer::checkSnapshot   PlayLayer +0x0 170                    ; vtable slot
rel    PlayLayer::m_unk36cd       PlayLayer::m_unk36cc +0x1             ; relative to another field
relsub GJGameState::m_cameraZoom  GJBaseGameLayer::m_gameState.m_cameraZoom GJBaseGameLayer::m_gameState
";
    let list = sigs::parse(src).unwrap();
    let exe = "GeometryDash.exe";
    let want = vec![
        sig(
            exe,
            Kind::Func,
            "PlayLayer::resetLevel",
            vec![Some(0x48), Some(0x89), Some(0x5C), Some(0x24), None, Some(0x57)],
            None,
            0,
        ),
        sig(
            exe,
            Kind::Func,
            "Foo::bar",
            vec![Some(0xE8), None, None, None, None, Some(0x48), Some(0x8B), Some(0xD8)],
            Some((1, Cap::Rel32)),
            0,
        ),
        sig(
            exe,
            Kind::Field,
            "PlayLayer::m_isPaused",
            vec![Some(0x80), Some(0xBB), None, None, None, None, Some(0), Some(0x74), None],
            Some((2, Cap::I32)),
            4,
        ),
        sig(
            "libcocos2d.dll",
            Kind::Global,
            "GameManager::s_instance",
            vec![Some(0x48), Some(0x8B), Some(5), None, None, None, None],
            Some((3, Cap::Rel32)),
            -16,
        ),
    ];
    assert_eq!(list.len(), want.len());
    for (a, b) in list.iter().zip(&want) {
        assert!(same(a, b), "{:?} {:?}", a, b);
    }
    let extras = sigs::parse_extra(src);
    assert_eq!(extras.len(), 3);
    assert!(
        matches!(&extras[0], Extra::VSlot { name, class, vt_off: 0, index: 170 }
        if name == "PlayLayer::checkSnapshot" && class == "PlayLayer")
    );
    assert!(
        matches!(&extras[1], Extra::Rel { name, anchor, delta: 1 }
        if name == "PlayLayer::m_unk36cd" && anchor == "PlayLayer::m_unk36cc")
    );
    assert!(
        matches!(&extras[2], Extra::RelSub { minus, .. } if minus == "GJBaseGameLayer::m_gameState")
    );
}

#[test]
fn records_before_a_header_are_for_the_game() {
    let list = sigs::parse("func a 90").unwrap();
    assert_eq!(list[0].module, "GeometryDash.exe");
}

fn fault(src: &str) -> String {
    sigs::parse(src).unwrap_err().message()
}

#[test]
fn faulty_lines_are_named() {
    assert_eq!(fault("\nfunc"), "line 2: expected `<kind> <name> <pattern>`");
    assert_eq!(fault("thing a 90"), "line 1: unknown kind `thing`");
    assert_eq!(fault("func a 90 [u8] [u8]"), "line 1: only one capture allowed");
    assert_eq!(fault("func a 90 +zz"), "line 1: bad offset `+zz`");
    assert_eq!(fault("func a GG"), "line 1: bad byte `GG`");
    assert_eq!(fault("func a 123"), "line 1: bad token `123`");
    assert_eq!(fault("func a ?? [u32]"), "line 1: pattern has no fixed bytes");
    assert_eq!(fault("func a"), "line 1: pattern has no fixed bytes");
}

#[test]
fn a_signature_is_written_in_columns() {
    let s = sig("m.exe", Kind::Func, "A::b", vec![Some(0xE8), None, None, None, None, Some(0x0F)], Some((1, Cap::Rel32)), -1);
    assert_eq!(s.to_line(), format!("func   {:<48} E8 [rel32] 0F -0x1", "A::b"));
    let e = Extra::VSlot { name: "A::b".to_string(), class: "A".to_string(), vt_off: 8, index: 3 };
    assert_eq!(e.to_line(), format!("vslot  {:<48} A +0x8 3", "A::b"));
    let e = Extra::Rel { name: "A::b".to_string(), anchor: "A::a".to_string(), delta: -4 };
    assert_eq!(e.to_line(), format!("rel    {:<48} A::a -0x4", "A::b"));
    let e = Extra::RelSub { name: "A::b".to_string(), anchor: "C::x.b".to_string(), minus: "C::x".to_string() };
    assert_eq!(e.to_line(), format!("relsub {:<48} C::x.b C::x", "A::b"));
}

#[test]
fn a_written_file_is_read_back() {
    let sigs = vec![
        sig("a.exe", Kind::Func, "A::f", vec![Some(1), None, Some(0xAB)], None, 0),
        sig("a.exe", Kind::Field, "A::m", vec![None, Some(2), None, None], Some((2, Cap::U16)), i64::MAX),
        sig("b.dll", Kind::Global, "B::g", vec![Some(0), None], Some((1, Cap::I8)), i64::MIN + 1),
        sig("a.exe", Kind::Func, "A::g", vec![None, None, None, None, Some(9)], Some((0, Cap::U32)), 1),
    ];
    let extras = vec![
        Extra::VSlot { name: "A::x".to_string(), class: "A".to_string(), vt_off: u32::MAX, index: 7 },
        Extra::Rel { name: "A::y".to_string(), anchor: "A::m".to_string(), delta: 0 },
        Extra::RelSub { name: "A::z".to_string(), anchor: "A::m".to_string(), minus: "A::y".to_string() },
    ];
    let text = archive::write_signatures(&sigs, &extras);
    assert!(text.starts_with("[a.exe]\nfunc "));
    let back = sigs::parse(&text).unwrap();
    assert_eq!(back.len(), sigs.len());
    for (a, b) in back.iter().zip(&sigs) {
        assert!(same(a, b), "{:?} {:?}", a, b);
    }
    let more = sigs::parse_extra(&text);
    assert_eq!(more.len(), extras.len());
    for (a, b) in more.iter().zip(&extras) {
        assert_eq!(a.to_line(), b.to_line());
    }
}

#[test]
fn the_anchor_is_the_longest_fixed_run() {
    assert_eq!(sigs::anchor(&vec![Some(1), None, Some(2), Some(3), None, Some(4), Some(5)]), (2, 2));
    assert_eq!(sigs::anchor(&vec![None, Some(1)]), (1, 1));
}

#[test]
fn a_pattern_fits_where_its_fixed_bytes_are() {
    let pat = vec![Some(1), None, Some(3)];
    assert!(sigs::matches_at(&[0, 1, 9, 3], 1, &pat));
    assert!(!sigs::matches_at(&[0, 1, 9, 4], 1, &pat));
    assert!(!sigs::matches_at(&[1, 9], 0, &pat));
}
