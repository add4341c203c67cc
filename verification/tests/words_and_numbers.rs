use gddumper::names;
use gddumper::num;
use gddumper::table;
use gddumper::table::Table;
use gddumper::text;

fn list(parts: &[&str]) -> Vec<String> {
    parts.iter().map(|s| s.to_string()).collect()
}

#[test]
fn words_are_split_at_any_white_space() {
    assert_eq!(text::split_words("  a\tbc \u{3000}d\n"), list(&["a", "bc", "d"]));
    assert_eq!(text::split_words(" \t "), Vec::<String>::new());
    assert_eq!(text::normalize(" a \n b"), "a b");
    assert_eq!(text::trim("\u{a0} x y "), "x y");
    assert_eq!(text::trim("   "), "");
}

#[test]
fn lines_end_at_line_feeds() {
    assert_eq!(text::split_lines("a\r\nb\n\nc"), list(&["a", "b", "", "c"]));
    assert_eq!(text::split_lines("a\n"), list(&["a"]));
    assert_eq!(text::split_lines(""), Vec::<String>::new());
    assert_eq!(text::split_lines("a\r"), list(&["a\r"]));
}

#[test]
fn strings_are_searched_by_characters() {
    assert!(text::contains("añb::c", "::"));
    assert!(!text::contains("a:b", "::"));
    assert_eq!(text::tail("a::b::c", "::"), "c");
    assert_eq!(text::tail("abc", "::"), "abc");
    assert_eq!(text::head("a#b#c", '#'), "a");
    assert_eq!(text::split_on("a,,b", ','), list(&["a", "", "b"]));
    assert_eq!(text::join(&list(&["a", "b"]), "::"), "a::b");
    assert_eq!(text::pad("ab", 4), "ab  ");
    assert_eq!(text::pad("abcde", 4), "abcde");
    assert!(text::same_ignoring_case("GeometryDash.EXE", "geometrydash.exe"));
    assert!(!text::same_ignoring_case("É", "é"));
    assert_eq!(text::byte_len("é"), 2);
    assert_eq!(text::strip_prefix("0x12", "0x"), Some("12".to_string()));
    assert_eq!(text::strip_suffix("a const", " const"), Some("a".to_string()));
}

#[test]
fn numbers_are_read_as_the_standard_library_reads_them() {
    for s in ["0", "+7", "18446744073709551615", "18446744073709551616", "", "+", "-1", "1x", "007"] {
        assert_eq!(num::parse_unsigned(s, 10, u64::MAX), s.parse::<u64>().ok(), "{}", s);
    }
    for s in ["-9223372036854775808", "-9223372036854775809", "9223372036854775807", "-", "-+1", "+12"] {
        assert_eq!(num::parse_signed(s, 10), s.parse::<i64>().ok(), "{}", s);
    }
    for s in ["ff", "FF", "100", "g", "+f"] {
        assert_eq!(num::parse_unsigned(s, 16, 255), u8::from_str_radix(s, 16).ok().map(|v| v as u64), "{}", s);
    }
    assert_eq!(num::parse_num("0x1F"), Some(31));
    assert_eq!(num::parse_num("0X-1f"), Some(-31));
    assert_eq!(num::parse_num("31"), Some(31));
    assert_eq!(num::parse_num("0x8000000000000000"), None);
    assert_eq!(num::parse_num("1f"), None);
}

#[test]
fn written_numbers_are_read_back() {
    for n in [0u64, 9, 10, 15, 16, 255, 0x1234_5678, u64::MAX] {
        assert_eq!(num::format_dec(n), format!("{}", n));
        assert_eq!(num::format_hex(n), format!("{:#x}", n));
        assert_eq!(num::parse_unsigned(&num::format_dec(n), 10, u64::MAX), Some(n));
    }
}

#[test]
fn a_table_keeps_its_keys_in_order() {
    let mut t: Table<String, u32> = Table::new();
    t.insert("b".to_string(), 2);
    t.insert("a".to_string(), 1);
    t.insert("ab".to_string(), 3);
    t.insert("b".to_string(), 4);
    assert_eq!(t.len(), 3);
    assert_eq!(t.key_at(0), "a");
    assert_eq!(t.key_at(1), "ab");
    assert_eq!(*t.value_at(2), 4);
    assert_eq!(t.get(&"ab".to_string()), Some(&3));
    assert_eq!(t.take(&"a".to_string()), Some(1));
    assert!(!t.contains(&"a".to_string()));
    assert_eq!(t.len(), 2);
    assert_eq!(t.into_values(), vec![3, 4]);
}

#[test]
fn a_pair_is_ordered_by_its_parts() {
    let mut t: Table<(usize, u32), u8> = Table::new();
    t.insert((1, 0), 3);
    t.insert((0, 9), 2);
    t.insert((0, 1), 1);
    assert_eq!(t.into_values(), vec![1, 2, 3]);
}

#[test]
fn sorting_keeps_equal_keys_in_their_order() {
    let by = vec![2u32, 1, 2, 1];
    let vals = vec![10u32, 11, 12, 13];
    assert_eq!(table::stable_sort(by, vals), vec![11, 13, 10, 12]);
}

#[test]
fn members_are_split_outside_template_brackets() {
    assert_eq!(names::split_member("cocos2d::CCNode::getZOrder"), Some(("cocos2d::CCNode", "getZOrder")));
    assert_eq!(names::split_member("Foo<a::b>"), None);
    assert_eq!(names::split_member("Foo<a::b>::c"), Some(("Foo<a::b>", "c")));
    assert_eq!(names::split_member("a:::b"), Some(("a", ":b")));
    assert_eq!(names::unqualified("cocos2d::CCNode"), "CCNode");
    assert_eq!(names::unqualified("CCNode"), "CCNode");
}

#[test]
fn a_split_name_joins_again() {
    let name = "a::b<c::d>::e";
    let (scope, member) = names::split_member(name).unwrap();
    assert_eq!(format!("{}::{}", scope, member), name);
    assert_eq!(names::scope_string(name), Some(scope.to_string()));
    assert_eq!(names::member_string(name), Some(member.to_string()));
}

#[test]
fn symbols_are_demangled() {
    let sym = "?init@CCNode@cocos2d@@UEAA_NXZ";
    let full = msvc_demangler::demangle(sym, msvc_demangler::DemangleFlags::llvm()).unwrap();
    assert_eq!(names::demangle(sym), full);
    assert!(full.contains("cocos2d::CCNode::init"));
    assert_eq!(names::short_function_name(sym), "cocos2d::CCNode::init");
    assert_eq!(names::demangle("plain"), "plain");
    assert_eq!(names::short_function_name("plain"), "plain");
    assert_eq!(names::demangle_type(".?AVCCNode@cocos2d@@"), "cocos2d::CCNode");
    assert_eq!(names::demangle_type(".?AUPoint@@"), "Point");
    assert_eq!(names::demangle_type("int"), "int");
}

#[test]
fn names_do_not_depend_on_the_demangler_where_it_fails() {
    assert_eq!(names::short_name_of("?run@Inner@Outer@@junk", None), "Outer::Inner::run");
    assert_eq!(names::full_name_of("?bad", None), "?bad");
    assert_eq!(names::full_name_of("?bad", Some("good".to_string())), "good");
    assert_eq!(names::class_name_of(".?AVInner@Outer@@", None), "Outer::Inner");
    assert_eq!(names::class_name_of(".?AVX@@", Some("class a::X x".to_string())), "a::X");
    assert_eq!(names::class_name_of(".?AVX@@", Some("int y".to_string())), "X");
    assert_eq!(names::declared_type_of(" struct P x "), Some("P".to_string()));
}

#[test]
fn demangler_flags_have_their_bits() {
    assert_eq!(names::LLVM, msvc_demangler::DemangleFlags::llvm().bits());
    assert_eq!(names::NAME_ONLY, msvc_demangler::DemangleFlags::NAME_ONLY.bits());
}

#[test]
fn hazardous_symbols_stay_raw() {
    for sym in [
        "??_C@_02ABCDEFGH@?$A0",
        "??_C@_02ABCDEFGH@?$0A",
        "??_C@_15ABCDEFGH@?$AA?$A0",
        "?f@?A0x1@@YAXV1@@Z",
        "?$TSS0@?A@f@@4HA",
        "?$TSS2147483648@x@@4HA",
        "?$TSS999999999",
        "?f@??$TSS4294967296@x@@4HA@@YAXXZ",
        "??$f@?IAAAAAAA@@@YAXXZ",
    ] {
        assert_eq!(names::demangle(sym), sym);
    }
}

#[test]
fn close_to_hazardous_symbols_are_demangled() {
    for sym in [
        "??$f@$0IAAAAAAA@@@YAXXZ",
        "??$f@$0?IAAAAAAA@@@YAXXZ",
        "?f@?A0x1f@@YAXXZ",
        "?v@?A0x1f@@3HA",
        "?f@Bar@?A0x1234abcd@@QEAAXAEBV12@@Z",
        "?V1@?A0x1f@@YAXXZ",
        "?$TSS1234567890@x@@4HA",
        "?$TSS2147483647@x@@4HA",
        "??$TSS99999999999@H@@YAXXZ",
        "??_C@_00A@a?$0",
        "??$?0H@_0Foo@@QEAA@H@Z",
    ] {
        let full = msvc_demangler::demangle(sym, msvc_demangler::DemangleFlags::llvm()).unwrap();
        assert_eq!(names::demangle(sym), full);
        assert!(full != sym);
    }
    assert_eq!(names::demangle_type(".?AVFoo@?A0x12ab@@"), "`anonymous namespace'::Foo");
}

#[test]
fn a_type_without_a_name_leaves_the_short_name_alone() {
    assert_eq!(names::short_function_name("?f@?A0x1@@YAXV1@@Z"), "`anonymous namespace'::f");
    assert_eq!(names::short_function_name("?$TSS0@?A@f@@4HA"), "f::?A::$TSS0");
    let nameless = "Class(Symbol { name: AnonymousNamespace(Some(\"0x1\")), scope: NameSequence { names: [] } })";
    let named = "Symbol { name: NonTemplate(\"f\"), scope: NameSequence { names: [] } }";
    let cast = "Symbol { name: Operator(Conversion), scope: NameSequence { names: [] } }";
    assert!(names::tree_is_unwritable(named, nameless, names::LLVM));
    assert!(names::tree_is_unwritable(nameless, "None", names::NAME_ONLY));
    assert!(names::tree_is_unwritable(cast, nameless, names::NAME_ONLY));
    assert!(!names::tree_is_unwritable(named, nameless, names::NAME_ONLY));
    assert!(!names::tree_is_unwritable(named, named, names::LLVM));
}
