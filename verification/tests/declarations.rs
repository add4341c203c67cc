use gddumper::bindings;
use gddumper::bindings::{Bindings, BroMember, SourceFile};
use gddumper::declared::LayoutStatus;
use gddumper::layout::{align_up, template_args, LayoutCtx};
use gddumper::listing;
use gddumper::listing::ListingError;
use gddumper::steam;
use gddumper::table::Table;

fn list(parts: &[&str]) -> Vec<String> {
    parts.iter().map(|s| s.to_string()).collect()
}

const SOURCE: &str = r#"
// A comment with class Fake { int x; }
/* block { */
[[link(android)]]
class cocos2d::CCObject {
    virtual void update(float dt) = win 0x10, imac 0x20;
    int m_uID;
}

class Player : cocos2d::CCObject, Delegate {
    static Player* create(int a, gd::map<int, int> b) = win 0x1A0, android 0x5;
    bool init(char const* s = ";{}") { return true; }
    virtual void run(int n) = 0 = win 0x30;
    virtual bool isOn() const = imac 0x44;
    bool m_on;
    float m_scale;
    int m_keys[3];
    double m_table[0x2];
    Player* m_next;
    PAD = win 0x10, android 0x4;
    android, ios {
        int m_androidOnly;
    }
    win, mac {
        short m_desktop;
    }
    gd::vector<int> m_list;
}
"#;

fn parsed() -> Bindings {
    let mut b = Bindings::new();
    b.parse_bro(SOURCE);
    b
}

#[test]
fn comments_and_literals_are_stripped() {
    assert_eq!(bindings::strip_comments("a//b\nc/*d*/e"), "a\nce");
    assert_eq!(bindings::strip_comments("x \"a;\\\"{\" y"), "x \"a;\\\"{\" y");
    assert_eq!(bindings::strip_comments("x = \"a//b\";"), "x = \"a//b\";");
    assert_eq!(bindings::strip_comments("a \"b/*c"), "a \"b/*c");
    assert_eq!(bindings::strip_comments("a/*b"), "a");
    assert_eq!(bindings::strip_comments("é"), "\u{c3}\u{a9}");
    assert_eq!(bindings::strip_comments("x = \"é\\é//\"; // é"), "x = \"é\\é//\"; ");
    assert_eq!(bindings::strip_comments("/*é*/é\"é"), "\u{c3}\u{a9}\"é");
    assert_eq!(bindings::strip_attrs("a[[x]]b[[y]]c"), "abc");
    assert_eq!(bindings::strip_attrs("a[[x"), "a");
}

#[test]
fn platform_lists_are_told_from_other_heads() {
    assert_eq!(bindings::is_platform_list("win, mac"), Some(true));
    assert_eq!(bindings::is_platform_list("windows"), Some(true));
    assert_eq!(bindings::is_platform_list("android, ios"), Some(false));
    assert_eq!(bindings::is_platform_list("void f()"), None);
}

#[test]
fn bodies_are_split_into_statements() {
    assert_eq!(bindings::statements("int  a;\n b c; d() { x; { y } }"), list(&["int a", "b c", "d()"]));
    assert_eq!(bindings::statements("ios { a; } win { b; c; } d;"), list(&["b", "c", "d"]));
    assert_eq!(bindings::statements("f(a;b); ; left"), list(&["f(a;b)"]));
}

#[test]
fn platform_values_are_read() {
    assert_eq!(bindings::platform_value("win 0x123, imac 0x456", "imac"), Some(0x456));
    assert_eq!(bindings::platform_value("win inline, imac 0x4", "win"), None);
    assert_eq!(bindings::platform_value("imac 0x4", "win"), None);
    assert_eq!(bindings::parse_hex(" 0X1f "), Some(31));
    assert_eq!(bindings::parse_hex("1f"), None);
    assert_eq!(bindings::find_top_level("a<b(c)>(d)", '('), Some(7));
    assert_eq!(bindings::matching_paren("f(a(b)c)d", 1), Some(8));
    assert_eq!(bindings::matching_paren("f(a", 1), None);
}

#[test]
fn headers_name_class_and_bases() {
    let (name, bases) = bindings::split_header(" cocos2d::CCNode : cocos2d::CCObject, Other ");
    assert_eq!(name, "cocos2d::CCNode");
    assert_eq!(bases, list(&["cocos2d::CCObject", "Other"]));
    let (name, bases) = bindings::split_header("cocos2d::CCNode ");
    assert_eq!(name, "cocos2d::CCNode");
    assert!(bases.is_empty());
}

#[test]
fn classes_are_read() {
    let b = parsed();
    assert_eq!(b.classes.len(), 2);
    let c = b.classes.get(&"Player".to_string()).unwrap();
    assert_eq!(c.bases, list(&["cocos2d::CCObject", "Delegate"]));
    assert!(c.has_virtuals);
    assert_eq!(c.functions.len(), 4);
    let f = &c.functions[0];
    assert_eq!(f.name, "create");
    assert_eq!(f.class, "Player");
    assert!(f.is_static && !f.is_virtual);
    assert_eq!(f.win, Some(0x1A0));
    assert_eq!(f.signature, "static Player* create(int a, gd::map<int, int> b)");
    assert_eq!(c.functions[1].name, "init");
    assert_eq!(c.functions[1].win, None);
    assert!(c.functions[2].is_virtual);
    assert_eq!((c.functions[2].name.as_str(), c.functions[2].win), ("run", Some(0x30)));
    assert!(c.functions[3].is_virtual);
    assert_eq!(c.functions[3].win, None);
    let names: Vec<String> = c
        .members
        .iter()
        .map(|m| match m {
            BroMember::Field { ty, name, count } => format!("{}|{}|{}", ty, name, count),
            BroMember::Pad(n) => format!("pad {}", n),
        })
        .collect();
    assert_eq!(
        names,
        list(&[
            "bool|m_on|1",
            "float|m_scale|1",
            "int|m_keys|3",
            "double|m_table|2",
            "Player*|m_next|1",
            "pad 16",
            "short|m_desktop|1",
            "gd::vector<int>|m_list|1",
        ])
    );
    assert_eq!(b.functions().len(), 5);
    let mut starts: Table<u32, ()> = Table::new();
    starts.insert(0x10, ());
    assert_eq!(b.count_addresses(&starts), (3, 1));
}

#[test]
fn enums_are_read() {
    let mut b = Bindings::new();
    b.parse_enums("enum class Difficulty : uint8_t {\nenum Plain {\nenum struct S : Unknown\n enum A B {\n");
    assert_eq!(b.enums.get(&"Difficulty".to_string()), Some(&1));
    assert_eq!(b.enums.get(&"Plain".to_string()), Some(&4));
    assert_eq!(b.enums.get(&"S".to_string()), Some(&4));
    assert_eq!(b.enums.len(), 3);
}

#[test]
fn files_are_read_by_their_extension() {
    assert!(bindings::is_source("Extras.bro"));
    assert!(bindings::is_source("Enums.hpp"));
    assert!(!bindings::is_source("Other.hpp"));
    assert!(!bindings::is_source(".bro"));
    assert!(bindings::is_extension("a.b.hpp", "hpp"));
    let file = |name: &str, text: &str| SourceFile {
        path: format!("dir/{}", name),
        name: name.to_string(),
        text: text.to_string(),
    };
    let b = Bindings::load(&vec![file("A.bro", "class A { int x; }"), file("Enums.hpp", "enum E : short {")]);
    assert_eq!(b.source, list(&["dir/A.bro", "dir/Enums.hpp"]));
    assert_eq!(b.classes.len(), 1);
    assert_eq!(b.enums.get(&"E".to_string()), Some(&2));
}

#[test]
fn alignment_rounds_up() {
    assert_eq!(align_up(13, 8), 16);
    assert_eq!(align_up(16, 8), 16);
    assert_eq!(align_up(13, 1), 13);
    assert_eq!(align_up(13, 0), 13);
    assert_eq!(align_up(7, 3), 9);
}

#[test]
fn template_arguments_are_split_at_top_level() {
    assert_eq!(template_args("A, std::pair<B, C>"), list(&["A", "std::pair<B, C>"]));
    assert_eq!(template_args("A,"), list(&["A"]));
    assert_eq!(template_args(",A"), list(&["", "A"]));
    assert!(template_args(" ").is_empty());
}

fn sizes(b: &Bindings, measured: &[(&str, u64)], asks: &[&str]) -> Vec<Option<(u64, u64)>> {
    let mut m: Table<String, u64> = Table::new();
    for (n, s) in measured {
        m.insert(n.to_string(), *s);
    }
    let bases: Table<String, Vec<(String, i32)>> = Table::new();
    let mut ctx = LayoutCtx { bro: b, measured: &m, rtti_bases: &bases, cache: Table::new() };
    asks.iter().map(|t| ctx.type_size(t)).collect()
}

#[test]
fn types_have_sizes() {
    let mut b = parsed();
    b.parse_enums("enum class GameMode : uint8_t {");
    let got = sizes(
        &b,
        &[("cocos2d::CCNode", 0x148), ("Foo", 0x20)],
        &[
            "int",
            "const double",
            "CCNode const*",
            "char&",
            "std::vector<bool>",
            "gd::vector<int>",
            "std::array<short, 5>",
            "std::array<short, 0x10>",
            "std::array<short, n>",
            "std::pair<char, double>",
            "std::optional<int>",
            "gd::unordered_map<int, gd::string>",
            "geode::SeedValueRSV",
            "cocos2d::CCPoint",
            "cocos2d::ccColor3B",
            "SEL_MenuHandler",
            "GameMode",
            "CCNode",
            "kBlend",
            "SomeState",
            "Unknown",
            "other::string",
            "unsigned long long",
            "Foo",
        ],
    );
    assert_eq!(
        got,
        vec![
            Some((4, 4)),
            Some((8, 8)),
            Some((8, 8)),
            Some((8, 8)),
            Some((32, 8)),
            Some((24, 8)),
            Some((10, 2)),
            Some((32, 2)),
            None,
            Some((16, 8)),
            Some((8, 4)),
            Some((64, 8)),
            Some((12, 4)),
            Some((8, 4)),
            Some((3, 1)),
            Some((8, 8)),
            Some((1, 1)),
            Some((0x148, 8)),
            Some((4, 4)),
            Some((4, 4)),
            None,
            None,
            Some((8, 8)),
            Some((0x20, 8)),
        ]
    );
}

#[test]
fn classes_are_laid_out() {
    let b = parsed();
    let measured: Table<String, u64> = Table::new();
    let mut bases: Table<String, Vec<(String, i32)>> = Table::new();
    bases.insert("Player".to_string(), vec![("cocos2d::CCObject".to_string(), 0), ("Delegate".to_string(), 16)]);
    let mut ctx = LayoutCtx { bro: &b, measured: &measured, rtti_bases: &bases, cache: Table::new() };
    let object = ctx.layout("cocos2d::CCObject");
    assert_eq!((object.start, object.end, object.align), (8, 16, 8));
    let l = ctx.layout("Player");
    assert!(l.error.is_none());
    assert_eq!((l.start, l.end, l.align), (24, 120, 8));
    let places: Vec<(String, u64, u64)> = l.members.iter().map(|m| (m.name.clone(), m.offset, m.size)).collect();
    let want = [
        ("m_on", 24, 1),
        ("m_scale", 28, 4),
        ("m_keys", 32, 12),
        ("m_table", 48, 16),
        ("m_next", 64, 8),
        ("m_desktop", 88, 2),
        ("m_list", 96, 24),
    ];
    let want: Vec<(String, u64, u64)> = want.iter().map(|(n, o, s)| (n.to_string(), *o, *s)).collect();
    assert_eq!(places, want);
    for w in l.members.windows(2) {
        assert!(w[0].offset + w[0].size <= w[1].offset);
    }
}

#[test]
fn unknown_sizes_are_reported() {
    let mut b = Bindings::new();
    b.parse_bro("class A : Missing { int x; } class B { Nope y; } class C { C self; int z; } class D { A* p; B b; }");
    let measured: Table<String, u64> = Table::new();
    let bases: Table<String, Vec<(String, i32)>> = Table::new();
    let mut ctx = LayoutCtx { bro: &b, measured: &measured, rtti_bases: &bases, cache: Table::new() };
    assert_eq!(ctx.layout("A").error, Some("unknown size of base Missing".to_string()));
    assert_eq!(ctx.layout("B").error, Some("unknown type `Nope` of y".to_string()));
    assert_eq!(ctx.layout("C").error, Some("unknown type `C` of self".to_string()));
    let d = ctx.layout("D");
    assert_eq!(d.error, Some("unknown type `B` of b".to_string()));
    assert_eq!(d.members.len(), 1);
    assert_eq!(ctx.layout("E").error, Some("class not in bindings".to_string()));
    assert_eq!(ctx.qualify("A"), Some("A".to_string()));
    assert_eq!(ctx.qualify("E"), None);
}

#[test]
fn a_size_stays_what_it_was() {
    let mut b = Bindings::new();
    b.parse_bro("class A { B b; int x; } class B { A* a; short s; }");
    let measured: Table<String, u64> = Table::new();
    let bases: Table<String, Vec<(String, i32)>> = Table::new();
    let mut ctx = LayoutCtx { bro: &b, measured: &measured, rtti_bases: &bases, cache: Table::new() };
    let first = ctx.class_size("A");
    assert_eq!(first, Some((24, 8)));
    assert_eq!(ctx.class_size("A"), first);
    assert_eq!(ctx.class_size("B"), Some((16, 8)));
}

#[test]
fn versions_are_listed() {
    let body = r#"[
        {"type": "dir", "name": "2.2081"},
        {"type": "file", "name": "2.2"},
        {"type": "dir", "name": "include"},
        {"type": "dir", "name": 5},
        7,
        {"type": "dir", "name": "2.207"}
    ]"#;
    assert_eq!(listing::remote_versions(body).unwrap(), list(&["2.2081", "2.207"]));
    assert!(matches!(listing::remote_versions("{}"), Err(ListingError::Unexpected)));
    match listing::remote_versions("[") {
        Err(ListingError::Malformed(m)) => {
            assert_eq!(m, serde_json::from_str::<serde_json::Value>("[").unwrap_err().to_string());
        }
        _ => panic!("the text is no JSON"),
    }
    assert_eq!(ListingError::Unexpected.message(), "unexpected GitHub response");
    assert_eq!(ListingError::Malformed("m".to_string()).message(), "m");
}

#[test]
fn entries_are_filtered() {
    let e = |t: &str, n: &str| (Some(t.to_string()), Some(n.to_string()));
    let entries = vec![e("dir", "2.1"), (None, Some("2.2".to_string())), e("dir", ""), e("dir", "v3"), e("dir", "10")];
    assert_eq!(listing::versions(&entries), list(&["2.1", "10"]));
}

#[test]
fn library_folders_are_read() {
    let src = "\"libraryfolders\"\n{\n\t\"path\"\t\t\"D:\\\\Steam\\\\Lib\"\n \"label\" \"x\"\n\"path\" \"E:\\\\G\"\n}";
    assert_eq!(steam::library_folders(src), list(&["D:\\Steam\\Lib", "E:\\G"]));
}

#[test]
fn a_layout_is_held_against_the_measured_size() {
    let b = parsed();
    let measured: Table<String, u64> = Table::new();
    let bases: Table<String, Vec<(String, i32)>> = Table::new();
    let mut ctx = LayoutCtx { bro: &b, measured: &measured, rtti_bases: &bases, cache: Table::new() };
    let l = ctx.layout("cocos2d::CCObject");
    assert_eq!(l.status(Some(16)), LayoutStatus::Verified { size: 16 });
    assert_eq!(l.status(Some(24)), LayoutStatus::Mismatch { computed: 16, measured: 24 });
    assert_eq!(l.status(None), LayoutStatus::Incomplete);
    assert_eq!(ctx.layout("Missing").status(Some(1)), LayoutStatus::Incomplete);
}

#[test]
fn a_statement_takes_its_addresses_from_the_last_equals_sign() {
    let mut b = Bindings::default();
    b.parse_bro("class C { virtual void f() = 0 = win 0x10; }");
    let c = b.classes.get(&"C".to_string()).unwrap();
    assert_eq!(c.functions.len(), 1);
    assert_eq!((c.functions[0].name.as_str(), c.functions[0].win), ("f", Some(0x10)));
    assert!(c.functions[0].is_virtual && c.has_virtuals && c.members.is_empty());
}

#[test]
fn stripping_twice_is_stripping_once() {
    for src in ["a//b\nc /* d\n */ e \"//\" / f", "x /", "\"open // x", "/**/ /**/", "a/*b*//c"] {
        let once = bindings::strip_comments(src);
        assert_eq!(bindings::strip_comments(&once), once);
    }
}

#[test]
fn texts_are_read_in_turn_or_joined() {
    let a = "class A { int x; } // end";
    let b = "[[x]] class B { A* a; } class A { short s; }";
    let mut x = Bindings::new();
    x.parse_bro(a);
    x.parse_bro(b);
    let mut y = Bindings::new();
    y.parse_bro(&format!("{}\n{}", a, b));
    assert_eq!(x.classes.len(), 2);
    assert_eq!(y.classes.len(), 2);
    for i in 0..2 {
        assert_eq!(x.classes.key_at(i), y.classes.key_at(i));
        assert_eq!(format!("{:?}", x.classes.value_at(i)), format!("{:?}", y.classes.value_at(i)));
    }
    assert_eq!(format!("{:?}", x.classes.value_at(0).members.len()), "1");
}

#[test]
fn sizes_follow_the_inner_type() {
    let b = Bindings::new();
    for t in ["int", "std::pair<char, double>", "CCRect", "Unknown"] {
        let forms = [
            t.to_string(),
            format!("const {}", t),
            format!("{} const", t),
            format!("{}*", t),
            format!("{}&", t),
            format!("std::array<{}, 7>", t),
            format!("std::optional<{}>", t),
        ];
        let asks: Vec<&str> = forms.iter().map(|s| s.as_str()).collect();
        let got = sizes(&b, &[], &asks);
        assert_eq!(got[1], got[0]);
        assert_eq!(got[2], got[0]);
        assert_eq!(got[3], Some((8, 8)));
        assert_eq!(got[4], Some((8, 8)));
        assert_eq!(got[5], got[0].map(|(s, a)| (7 * s, a)));
        assert_eq!(got[6], got[0].map(|(s, a)| ((s / a + 1) * a, a)));
    }
}
