use gddumper::analysis::{self, Access, Target, Trivial, VType, Val};
use gddumper::archive;
use gddumper::bindings::Bindings;
use gddumper::declared;
use gddumper::disasm;
use gddumper::dump;
use gddumper::generate;
use gddumper::insn;
use gddumper::model::{Module, NameSrc, OwnerSrc};
use gddumper::pe::{self, ExportPart, ImportPart, Pe, PeError};
use gddumper::rtti::{self, BaseClass};
use gddumper::signing;
use gddumper::sigs::{self, Cap, Extra, Kind, Sig};
use gddumper::table::Table;
use gddumper::world::{ClassView, World};
use iced_x86::{FlowControl, MemorySize, Mnemonic, OpAccess, OpKind, Register};

const BASE: u64 = 0x1_4000_0000;
const NEW: u32 = 0x1000;
const DELETE: u32 = 0x1010;
const SCALAR: u32 = 0x1020;
const CTOR: u32 = 0x1080;
const GETTER: u32 = 0x10C0;
const SHARED: u32 = 0x1100;
const IMPORT_STUB: u32 = 0x1180;
const USER: u32 = 0x11C0;
const SCALAR_2: u32 = 0x1200;
const SCALAR_3: u32 = 0x1280;
const SHARED_2: u32 = 0x1300;
const SHARED_3: u32 = 0x1380;
const VTABLE: u32 = 0x2108;
const GLOBAL: u32 = 0x3100;
const NAME_SLOT: u32 = 0x2480;
const ORDINAL_SLOT: u32 = 0x2488;

/// A file whose sections lie behind 0x400 bytes of headers, in the order of
/// their addresses.
struct Image {
    file: Vec<u8>,
}

impl Image {
    fn blank() -> Image {
        let mut im = Image { file: vec![0; 0x4400] };
        im.file[0..2].copy_from_slice(b"MZ");
        im.at(0x3c, &0x80u32.to_le_bytes());
        im.at(0x80, b"PE\0\0");
        im.at(0x84, &0x8664u16.to_le_bytes());
        im.at(0x86, &4u16.to_le_bytes());
        im.at(0x88, &0x1234_5678u32.to_le_bytes());
        im.at(0x94, &240u16.to_le_bytes());
        let opt = 0x98;
        im.at(opt, &0x20bu16.to_le_bytes());
        im.at(opt + 16, &IMPORT_STUB.to_le_bytes());
        im.at(opt + 24, &BASE.to_le_bytes());
        im.at(opt + 56, &0x5000u32.to_le_bytes());
        im.at(opt + 60, &0x400u32.to_le_bytes());
        im.at(opt + 64, &0xABCDu32.to_le_bytes());
        im.at(opt + 108, &16u32.to_le_bytes());
        let flags: [(&str, u32); 4] =
            [(".text", 0x6000_0020), (".rdata", 0x4000_0040), (".data", 0xC000_0040), (".pdata", 0x4000_0040)];
        for (i, (name, flag)) in flags.iter().enumerate() {
            let s = opt + 240 + i * 40;
            im.at(s, name.as_bytes());
            im.at(s + 8, &0x800u32.to_le_bytes());
            im.at(s + 12, &(0x1000 * (i as u32 + 1)).to_le_bytes());
            im.at(s + 16, &0x1000u32.to_le_bytes());
            im.at(s + 20, &(0x400 + 0x1000 * i as u32).to_le_bytes());
            im.at(s + 36, &flag.to_le_bytes());
        }
        im
    }

    fn at(&mut self, off: usize, b: &[u8]) {
        self.file[off..off + b.len()].copy_from_slice(b);
    }

    fn put(&mut self, rva: u32, b: &[u8]) {
        self.at(rva as usize - 0x1000 + 0x400, b);
    }

    fn put32(&mut self, rva: u32, words: &[u32]) {
        for (i, w) in words.iter().enumerate() {
            self.put(rva + 4 * i as u32, &w.to_le_bytes());
        }
    }

    fn put_va(&mut self, rva: u32, target: u32) {
        self.put(rva, &(BASE + target as u64).to_le_bytes());
    }

    fn dir(&mut self, i: usize, rva: u32, size: u32) {
        self.at(0x98 + 112 + i * 8, &rva.to_le_bytes());
        self.at(0x98 + 116 + i * 8, &size.to_le_bytes());
    }

    /// Code with a 32-bit distance to `target` at its end.
    fn far(&self, code: &[u8], at: u32, target: u32) -> Vec<u8> {
        let mut v = code.to_vec();
        let next = at + v.len() as u32 + 4;
        v.extend(target.wrapping_sub(next).to_le_bytes());
        v
    }

    fn code(&mut self, start: u32, parts: &[(&[u8], Option<u32>)]) -> u32 {
        let mut at = start;
        for (b, target) in parts {
            let v = match target {
                Some(t) => self.far(b, at, *t),
                None => b.to_vec(),
            };
            self.put(at, &v);
            at += v.len() as u32;
        }
        at
    }
}

/// A class `Foo` derived from `Base`, with constructor, scalar deleting
/// destructor, getter and a lazily made instance.
fn game() -> Vec<u8> {
    let mut im = Image::blank();
    // operator new and operator delete.
    im.code(NEW, &[(&[0x48, 0x83, 0xEC, 0x28, 0x33, 0xC0, 0x48, 0x83, 0xC4, 0x28, 0xC3], None)]);
    im.code(DELETE, &[(&[0x90, 0x90, 0xC3], None)]);
    // Scalar deleting destructors.
    let mut scalar_end = 0;
    for (i, at) in [SCALAR_2, SCALAR_3, SCALAR].iter().enumerate() {
        let frame = 0x20 + 0x10 * i as u8;
        scalar_end = im.code(
            *at,
            &[
                (&[0x40, 0x53], None),
                (&[0x48, 0x83, 0xEC, frame], None),
                (&[0x48, 0x8D, 0x05], Some(VTABLE)),
                (&[0x48, 0x8B, 0xD9], None),
                (&[0x48, 0x89, 0x01], None),
                (&[0xF6, 0xC2, 0x01], None),
                (&[0x74, 0x0A], None),
                (&[0xBA, 0x30, 0x00, 0x00, 0x00], None),
                (&[0xE8], Some(DELETE)),
                (&[0x48, 0x8B, 0xC3], None),
                (&[0x48, 0x83, 0xC4, frame], None),
                (&[0x5B, 0xC3], None),
            ],
        );
    }
    // Constructor.
    let ctor_end = im.code(
        CTOR,
        &[
            (&[0x48, 0x8D, 0x05], Some(VTABLE)),
            (&[0x48, 0x89, 0x01], None),
            (&[0xC7, 0x41, 0x10, 0x05, 0x00, 0x00, 0x00], None),
            (&[0x48, 0x8B, 0xC1], None),
            (&[0xC3], None),
        ],
    );
    // Getter of the field at 0x10.
    let getter_end = im.code(GETTER, &[(&[0x8B, 0x41, 0x10, 0xC3], None)]);
    // Accessors of instances.
    let mut shared_end = 0;
    for (i, at) in [SHARED_3, SHARED_2, SHARED].iter().enumerate() {
        let frame = 0x48 - 0x10 * i as u8;
        let global = GLOBAL + 8 * (2 - i as u32);
        shared_end = im.code(
            *at,
            &[
                (&[0x48, 0x83, 0xEC, frame], None),
                (&[0x48, 0x8B, 0x05], Some(global)),
                (&[0x48, 0x85, 0xC0], None),
                (&[0x75, 0x1B], None),
                (&[0xB9, 0x30, 0x00, 0x00, 0x00], None),
                (&[0xE8], Some(NEW)),
                (&[0x48, 0x8D, 0x0D], Some(VTABLE)),
                (&[0x48, 0x89, 0x08], None),
                (&[0x48, 0x89, 0x05], Some(global)),
                (&[0x48, 0x83, 0xC4, frame], None),
                (&[0xC3], None),
            ],
        );
    }
    // jmp [rip] through the import table.
    im.code(IMPORT_STUB, &[(&[0xFF, 0x25], Some(NAME_SLOT))]);
    // A caller of the constructor.
    let user_end = im.code(
        USER,
        &[
            (&[0x48, 0x83, 0xEC, 0x28], None),
            (&[0xE8], Some(CTOR)),
            (&[0xE8], Some(IMPORT_STUB)),
            (&[0x48, 0x83, 0xC4, 0x28], None),
            (&[0xC3], None),
        ],
    );
    // RTTI.
    im.put_va(0x3000, 0x2F00);
    im.put(0x3010, b".?AVFoo@@\0");
    im.put_va(0x3040, 0x2F00);
    im.put(0x3050, b".?AVBase@@\0");
    im.put32(0x2000, &[1, 0, 0, 0x3000, 0x2040, 0x2000]);
    im.put32(0x2040, &[0, 0, 2, 0x2060]);
    im.put32(0x2060, &[0x2080, 0x20A0]);
    im.put32(0x2080, &[0x3000, 1, 0, 0xFFFF_FFFF, 0, 0x40, 0x2040]);
    im.put32(0x20A0, &[0x3040, 0, 0, 0xFFFF_FFFF, 0, 0x40, 0]);
    im.put_va(0x2100, 0x2000);
    im.put_va(VTABLE, SCALAR);
    im.put_va(VTABLE + 8, GETTER);
    im.put_va(VTABLE + 16, SCALAR_2);
    im.put_va(VTABLE + 24, SCALAR_3);
    // Exports: the getter and a forwarder.
    im.dir(0, 0x2300, 0x80);
    im.put32(0x2300 + 16, &[1, 3, 2, 0x2340, 0x2350, 0x2358]);
    im.put32(0x2340, &[GETTER, 0, 0x2370]);
    im.put32(0x2350, &[0x23A0, 0x23C0]);
    im.put(0x2358, &[0, 0, 2, 0]);
    im.put(0x2370, b"other.func\0");
    im.put(0x23A0, b"?getValue@Foo@@QEAAHXZ\0");
    im.put(0x23C0, b"fwd\0");
    // Imports: one by name and one by ordinal.
    im.dir(1, 0x2400, 0x28);
    im.put32(0x2400, &[0x2440, 0, 0, 0x2430, NAME_SLOT]);
    im.put(0x2430, b"cocos.dll\0");
    im.put32(0x2440, &[0x2460, 0, 7, 0x8000_0000, 0, 0]);
    im.put(0x2462, b"?init@CCNode@cocos2d@@UEAA_NXZ\0");
    // Function table, out of order.
    im.dir(3, 0x4000, 12 * 8);
    im.put(0x2200, &[0x01]);
    im.put(0x2204, &[0x21]);
    im.put32(
        0x4000,
        &[
            SHARED, shared_end, 0x2200, SCALAR, scalar_end, 0x2200, 0, 0, 0, CTOR, ctor_end, 0x2200, GETTER, getter_end,
            0x2204, USER, user_end, 0x2200, SHARED_2, SHARED_2 + (shared_end - SHARED), 0x2200, SHARED_3,
            SHARED_3 + (shared_end - SHARED), 0x2200,
        ],
    );
    im.file
}

fn pe() -> Pe {
    Pe::load("dir/Game.exe", "Game.exe", &game()).unwrap()
}

fn module() -> Module {
    Module::load("dir/Game.exe", "Game.exe", &game()).unwrap()
}

#[test]
fn an_image_is_mapped() {
    let p = pe();
    assert_eq!(p.name, "Game.exe");
    assert_eq!(p.image_base, BASE);
    assert_eq!(p.timestamp, 0x1234_5678);
    assert_eq!(p.checksum, 0xABCD);
    assert_eq!(p.entry, IMPORT_STUB);
    assert_eq!(p.image.len(), 0x5000);
    assert_eq!(p.sections.len(), 4);
    assert_eq!(p.sections[0].name, ".text");
    assert_eq!(p.sections[0].vsize, 0x1000);
    assert!(p.sections[0].is_exec() && !p.sections[0].is_write());
    assert!(p.sections[2].is_write());
    assert!(p.sections[0].contains(0x1FFF) && !p.sections[0].contains(0x2000));
    assert_eq!(p.u8(0x3012), Some(b'A'));
    assert_eq!(p.u32(0x2000), Some(1));
    assert_eq!(p.i32(0x2080 + 12), Some(-1));
    assert_eq!(p.u64(VTABLE), Some(BASE + SCALAR as u64));
    assert_eq!(p.u32(0x4FFD), None);
    assert_eq!(p.bytes(0x4FFE, 10), &[0, 0]);
    assert_eq!(p.bytes(0x9000, 10).len(), 0);
    assert_eq!(p.cstr(0x2430), Some("cocos.dll".to_string()));
    assert_eq!(p.section_of(0x2000).unwrap().name, ".rdata");
    assert!(p.section_of(0x5000).is_none());
    assert!(p.is_exec(CTOR) && !p.is_exec(VTABLE));
    assert_eq!(p.exec_sections().len(), 1);
    let data: Vec<&str> = p.data_sections().iter().map(|s| s.name.as_str()).collect();
    assert_eq!(data, vec![".rdata", ".data"]);
}

#[test]
fn addresses_are_converted_back_and_forth() {
    let p = pe();
    assert_eq!(p.va_to_rva(p.rva_to_va(0x1234)), Some(0x1234));
    assert_eq!(p.rva_to_va(p.va_to_rva(BASE + 0x4FFF).unwrap()), BASE + 0x4FFF);
    assert_eq!(p.va_to_rva(BASE - 1), None);
    assert_eq!(p.va_to_rva(BASE + 0x5000), None);
}

#[test]
fn directories_are_read() {
    let p = pe();
    assert_eq!(p.exports.len(), 2);
    assert_eq!(p.exports[0].name, Some("?getValue@Foo@@QEAAHXZ".to_string()));
    assert_eq!((p.exports[0].ordinal, p.exports[0].rva), (1, GETTER));
    assert!(p.exports[0].forwarder.is_none());
    assert_eq!(p.exports[1].name, Some("fwd".to_string()));
    assert_eq!(p.exports[1].ordinal, 3);
    assert_eq!(p.exports[1].forwarder, Some("other.func".to_string()));
    assert_eq!(p.imports.len(), 2);
    assert_eq!(p.imports[0].dll, "cocos.dll");
    assert_eq!(p.imports[0].name, Some("?init@CCNode@cocos2d@@UEAA_NXZ".to_string()));
    assert_eq!(p.imports[0].iat_rva, NAME_SLOT);
    assert_eq!(p.imports[1].ordinal, Some(7));
    assert_eq!(p.imports[1].iat_rva, ORDINAL_SLOT);
    assert_eq!(p.import_at_iat(ORDINAL_SLOT).unwrap().ordinal, Some(7));
    assert!(p.import_at_iat(0x2490).is_none());
    let begins: Vec<u32> = p.runtime_functions.iter().map(|f| f.begin).collect();
    assert_eq!(begins, vec![SCALAR, CTOR, GETTER, SHARED, USER, SHARED_2, SHARED_3]);
    let chained: Vec<bool> = p.runtime_functions.iter().map(|f| f.chained).collect();
    assert_eq!(chained, vec![false, false, true, false, false, false, false]);
}

fn load_error(change: &dyn Fn(&mut Vec<u8>)) -> PeError {
    let mut file = game();
    change(&mut file);
    match Pe::load("g", "g", &file) {
        Err(e) => e,
        Ok(_) => panic!("the file is faulty"),
    }
}

#[test]
fn faulty_files_are_refused() {
    assert_eq!(load_error(&|f| f[0] = 0), PeError::NotPe);
    assert_eq!(load_error(&|f| f.clear()), PeError::NotPe);
    assert_eq!(load_error(&|f| f.truncate(0x3d)), PeError::OutOfBounds(0x3c));
    assert_eq!(load_error(&|f| f[0x80] = 0), PeError::BadSignature);
    assert_eq!(load_error(&|f| f[0x84] = 0x4c), PeError::Machine(0x864c));
    assert_eq!(load_error(&|f| f[0x98] = 0x0c), PeError::NotPe32Plus);
    assert_eq!(load_error(&|f| f.truncate(0x98 + 240 + 10)), PeError::OutOfBounds(0x98 + 240 + 8));
    let exports = |f: &mut Vec<u8>| f[0x98 + 112..0x98 + 116].copy_from_slice(&0x4FF0u32.to_le_bytes());
    assert_eq!(load_error(&exports), PeError::Exports(ExportPart::Base));
    let imports = |f: &mut Vec<u8>| f[0x98 + 120..0x98 + 124].copy_from_slice(&0x4FFFu32.to_le_bytes());
    assert_eq!(load_error(&imports), PeError::Imports(ImportPart::Descriptor));
    assert_eq!(PeError::NotPe.message("a.exe"), "a.exe is not a PE file");
    assert_eq!(PeError::OutOfBounds(60).message("a"), "read out of bounds at 0x3c");
    assert_eq!(PeError::Machine(0x14c).message("a"), "only x64 images are supported (machine 0x14c)");
    assert_eq!(PeError::Exports(ExportPart::Base).message("a"), "parsing exports: export base");
    assert_eq!(PeError::Imports(ImportPart::Thunk).message("a"), "parsing imports: thunk");
    assert_eq!(PeError::BadSignature.message("a"), "bad PE signature");
    assert_eq!(PeError::NotPe32Plus.message("a"), "not a PE32+ image");
}

#[test]
fn words_are_little_endian() {
    let d = [1, 2, 3, 4, 5, 6, 7, 8];
    assert_eq!(pe::u16_at(&d, 1), Ok(0x0302));
    assert_eq!(pe::u32_at(&d, 4), Ok(0x0807_0605));
    assert_eq!(pe::u64_at(&d, 0), Ok(0x0807_0605_0403_0201));
    assert_eq!(pe::u64_at(&d, 1), Err(PeError::OutOfBounds(1)));
    assert_eq!(pe::rd(&d, 6, 2), Ok(vec![7, 8]));
    assert_eq!(pe::read_cstr(&[65, 0xFF, 0, 66], 0), Some("A\u{fffd}".to_string()));
    assert_eq!(pe::read_cstr(&[65], 0), None);
    assert_eq!(pe::read_cstr("xé€\0".as_bytes(), 1), Some("é€".to_string()));
}

#[test]
fn classes_are_found_by_rtti() {
    let r = rtti::scan(&pe());
    assert_eq!(r.classes.len(), 2);
    let foo = r.class("Foo").unwrap();
    assert_eq!(foo.mangled, ".?AVFoo@@");
    assert_eq!(foo.td_rva, 0x3000);
    assert_eq!(foo.chd_rva, Some(0x2040));
    assert_eq!(foo.all_bases.len(), 1);
    assert_eq!(foo.all_bases[0].name, "Base");
    assert_eq!((foo.all_bases[0].mdisp, foo.all_bases[0].pdisp, foo.all_bases[0].depth), (0, -1, 1));
    assert_eq!(foo.direct_bases.len(), 1);
    assert_eq!(foo.primary_base().unwrap().name, "Base");
    assert_eq!(foo.vtables.len(), 1);
    let v = foo.primary_vtable().unwrap();
    assert_eq!((v.rva, v.col_rva, v.offset), (VTABLE, 0x2000, 0));
    assert_eq!(v.entries, vec![SCALAR, GETTER, SCALAR_2, SCALAR_3]);
    assert!(r.class("Base").unwrap().vtables.is_empty());
    assert_eq!(r.vtable_owner.get(&VTABLE), Some(&("Foo".to_string(), 0)));
}

#[test]
fn functions_are_analysed() {
    let m = module();
    let ctor = m.func(CTOR).unwrap();
    assert_eq!(ctor.vt_stores.len(), 1);
    assert_eq!((ctor.vt_stores[0].vt, ctor.vt_stores[0].dst), (VTABLE, Val::This(0)));
    let f = ctor.fields.iter().find(|f| f.off == 0x10).unwrap();
    assert_eq!((f.size, f.kind), (4, Access::Write));
    assert!(ctor.uses_this);
    let scalar = m.func(SCALAR).unwrap();
    assert!(scalar.tests_arg_bit);
    assert_eq!(scalar.calls.len(), 1);
    assert_eq!(scalar.calls[0].target, Target::Direct(DELETE));
    assert_eq!((scalar.calls[0].rcx, scalar.calls[0].rdx), (Val::This(0), Val::Const(0x30)));
    let shared = m.func(SHARED).unwrap();
    assert_eq!(shared.allocs.len(), 1);
    assert_eq!((shared.allocs[0].size, shared.allocs[0].allocator), (0x30, NEW));
    assert_eq!(shared.vt_stores[0].dst, Val::Alloc(0, 0));
    assert_eq!(shared.global_stores.len(), 1);
    assert_eq!((shared.global_stores[0].global, shared.global_stores[0].val), (GLOBAL, Val::Alloc(0, 0)));
    let getter = m.func(GETTER).unwrap();
    assert!(matches!(getter.trivial, Some(Trivial::Getter { off: 0x10, size: 4, .. })));
    assert_eq!(m.code.thunks.get(&IMPORT_STUB), Some(&NAME_SLOT));
    for i in 0..m.code.funcs.len() {
        let f = m.code.funcs.value_at(i);
        for v in &f.vt_stores {
            if let Val::Alloc(id, _) = v.dst {
                assert!((id as usize) < f.allocs.len());
            }
        }
    }
}

#[test]
fn functions_end_by_the_next_start() {
    let p = pe();
    let vtables: Table<u32, ()> = Table::new();
    let mut starts: Table<u32, ()> = Table::new();
    let mut ends: Table<u32, u32> = Table::new();
    let extent = |starts: &Table<u32, ()>, ends: &Table<u32, u32>, at: u32| {
        analysis::Code { pe: &p, vtables: &vtables, starts, pdata_end: ends }.extent(at)
    };
    let end = extent(&starts, &ends, CTOR);
    assert!(CTOR < end && end <= GETTER);
    assert!(extent(&starts, &ends, 0x1800) <= 0x1800 + 0x2000);
    starts.insert(CTOR + 3, ());
    assert!(extent(&starts, &ends, CTOR) <= CTOR + 3);
    ends.insert(CTOR, 0x9000);
    assert_eq!(extent(&starts, &ends, CTOR), 0x9000);
}

#[test]
fn values_merge_to_what_both_know() {
    assert_eq!(analysis::merge(Val::This(4), Val::This(4)), Val::This(4));
    assert_eq!(analysis::merge(Val::This(4), Val::Arg1), Val::Unk);
    assert_eq!(analysis::merge(Val::Arg1, Val::This(4)), analysis::merge(Val::This(4), Val::Arg1));
}

#[test]
fn structors_sizes_and_singletons_are_found() {
    let m = module();
    assert_eq!(m.deleters, vec![(Target::Direct(DELETE), 3)]);
    assert_eq!(m.allocators, vec![(NEW, 3)]);
    let size = m.sizes.get(&"Foo".to_string()).unwrap();
    assert_eq!((size.size, size.source), (0x30, "sized delete"));
    assert_eq!(m.ctors.get(&CTOR), Some(&"Foo".to_string()));
    assert_eq!(m.scalar_dtors.get(&SCALAR), Some(&"Foo".to_string()));
    assert_eq!(m.singletons.len(), 3);
    assert_eq!(m.singletons[0].class, Some("Foo".to_string()));
    assert_eq!((m.singletons[0].global, m.singletons[0].accessor, m.singletons[0].size), (GLOBAL, SHARED, 0x30));
    assert_eq!(m.best_singletons().len(), 3);
    let name = |rva: u32| m.names.get(&rva).map(|n| (n.name.clone(), n.source));
    assert_eq!(name(CTOR), Some(("Foo::Foo".to_string(), NameSrc::Inferred)));
    assert_eq!(name(SCALAR), Some(("Foo::`scalar deleting destructor'".to_string(), NameSrc::Inferred)));
    assert_eq!(name(DELETE), Some(("operator delete(void*, size_t)".to_string(), NameSrc::Inferred)));
    assert_eq!(name(NEW), Some(("operator new(size_t)".to_string(), NameSrc::Inferred)));
    assert_eq!(name(GETTER), Some(("Foo::getValue".to_string(), NameSrc::Export)));
    assert_eq!(name(IMPORT_STUB), Some(("cocos2d::CCNode::init (thunk)".to_string(), NameSrc::Import)));
    assert_eq!(m.import_name(ORDINAL_SLOT), Some("cocos.dll#7".to_string()));
    assert_eq!(m.class_of_vtable(VTABLE), Some(("Foo", 0)));
    assert_eq!(m.entry_import(IMPORT_STUB), Some(NAME_SLOT));
    assert_eq!(m.resolve_entry(CTOR), (CTOR, 0));
}

#[test]
fn a_name_gives_way_to_a_better_one_only() {
    let mut m = module();
    m.set_name(CTOR, "Foo::make".to_string(), NameSrc::Signature, false);
    m.set_name(CTOR, "Foo::guess".to_string(), NameSrc::Vtable, false);
    m.set_name(CTOR, "Foo::zzz".to_string(), NameSrc::Signature, false);
    assert_eq!(m.names.get(&CTOR).unwrap().name, "Foo::make");
    m.set_name(CTOR, "Foo::abc".to_string(), NameSrc::Signature, false);
    assert_eq!(m.names.get(&CTOR).unwrap().name, "Foo::abc");
    assert_eq!(m.aliases.get(&CTOR).unwrap().len(), 3);
    assert_eq!(NameSrc::Bindings.label(), "bindings");
}

#[test]
fn functions_get_owners() {
    let mut m = module();
    m.compute_ownership();
    let owner = |rva: u32| m.owner.get(&rva).map(|o| (o.class.clone(), o.adj, o.source));
    assert_eq!(owner(CTOR), Some(("Foo".to_string(), 0, OwnerSrc::Structor)));
    assert_eq!(owner(GETTER).unwrap().0, "Foo");
    assert_eq!(owner(SHARED), None);
}

#[test]
fn fields_are_collected() {
    let mut m = module();
    m.compute_ownership();
    let mut w = World::new(vec![m]);
    w.build_fields();
    assert_eq!(w.size_of("Foo"), Some(0x30));
    assert_eq!(w.size_of("Base"), None);
    assert!(w.is_ancestor("Base", "Foo") && !w.is_ancestor("Foo", "Base"));
    let fields = w.fields.get(&"Foo".to_string()).unwrap();
    let f = fields.get(&0x10).unwrap();
    assert_eq!((f.reads, f.writes), (1, 1));
    assert!(f.getters.contains(&"getValue".to_string()));
    assert!(!fields.contains(&0));
    assert_eq!(f.type_hint(), "i32");
    assert_eq!(w.resolve_field("Foo", 0x10), ("Foo".to_string(), 0x10));
    assert_eq!(w.primary_vtable("Foo").unwrap().1, &vec![SCALAR, GETTER, SCALAR_2, SCALAR_3]);
}

fn user_names() -> Vec<String> {
    vec!["func Foo::use 0x11C0 # comment\nfield Foo::m_value 0x10\nglobal Foo::s_own 0x3200\nbad line\nfunc x zz\nthing a 1\n".to_string()]
}

#[test]
fn a_report_names_what_it_can() {
    let r = dump::run(vec![module()], &vec![], &vec![], &user_names()).unwrap();
    assert_eq!(r.exe, 0);
    assert_eq!(r.user_names, 3);
    assert_eq!(r.named_globals.get(&(0, 0x3200)), Some(&"Foo::s_own".to_string()));
    assert_eq!(r.named_globals.get(&(0, GLOBAL)), Some(&"Foo::s_instance".to_string()));
    let m = &r.world.modules[0];
    assert_eq!(m.names.get(&USER).unwrap().source, NameSrc::User);
    let fields = r.named_fields.get(&"Foo".to_string()).unwrap();
    assert_eq!(fields.get(&0x10).unwrap()[0].name, "m_value");
    assert!(dump::run(vec![], &vec![], &vec![], &vec![]).is_err());
    assert_eq!(dump::DumpError::NoModules.message("dir"), "no modules loaded from dir");
}

#[test]
fn the_user_has_the_last_word_on_functions() {
    let plain = dump::run(vec![module()], &vec![], &vec![], &vec![]).unwrap();
    assert_eq!(plain.world.modules[0].names.get(&GETTER).unwrap().source, NameSrc::Export);
    let code = vec![Some(0x8B), Some(0x41), Some(0x10), Some(0xC3)];
    let found = vec![sig(Kind::Func, "Foo::signed", code, None, 0)];
    let texts = vec!["func Foo::zeta 0x10C0\nfn Foo::alpha 0x10C0".to_string(), "func Foo::beta 0x10C0".to_string()];
    let r = dump::run(vec![module()], &found, &vec![], &texts).unwrap();
    let n = r.world.modules[0].names.get(&GETTER).unwrap();
    assert_eq!((n.name.as_str(), n.source), ("Foo::alpha", NameSrc::User));
}

#[test]
fn names_survive_in_signatures() {
    let first = dump::run(vec![module()], &vec![], &vec![], &user_names()).unwrap();
    let (sigs, extras, left) = signing::make_signatures(&first);
    let total = sigs.len() + extras.len() + left.len();
    // One function, four globals, one field.
    assert_eq!(total, 6);
    let mut names: Vec<String> = sigs.iter().map(|s| s.name.clone()).collect();
    for e in &extras {
        names.push(match e {
            Extra::VSlot { name, .. } | Extra::Rel { name, .. } | Extra::RelSub { name, .. } => name.clone(),
        });
    }
    names.extend(left.iter().cloned());
    names.sort();
    let mut wanted = vec!["Foo::use".to_string(), "Foo::m_value".to_string()];
    for i in 0..first.named_globals.len() {
        wanted.push(first.named_globals.value_at(i).clone());
    }
    wanted.sort();
    assert_eq!(names, wanted);
    assert_eq!(left, vec!["Foo::s_own".to_string()]);
    for w in sigs.windows(2) {
        let key = |s: &Sig| (s.module.clone(), [Kind::Func, Kind::Field, Kind::Global].iter().position(|k| *k == s.kind), s.name.clone());
        assert!(key(&w[0]) <= key(&w[1]));
    }
    let text = archive::write_signatures(&sigs, &extras);
    let read = sigs::parse(&text).unwrap();
    let more = sigs::parse_extra(&text);
    assert_eq!(read.len(), sigs.len());
    let second = dump::run(vec![module()], &read, &more, &vec![]).unwrap();
    for s in &sigs {
        match s.kind {
            Kind::Func => {
                let m = &second.world.modules[0];
                let n = m.names.get(&USER).unwrap();
                assert_eq!((n.name.as_str(), n.source), ("Foo::use", NameSrc::Signature));
            }
            Kind::Global => {
                let found = (0..second.named_globals.len()).any(|i| *second.named_globals.value_at(i) == s.name);
                assert!(found, "{}", s.name);
            }
            Kind::Field => {
                let fields = second.named_fields.get(&"Foo".to_string()).unwrap();
                assert_eq!(fields.get(&0x10).unwrap()[0].name, "m_value");
            }
        }
    }
    for r in &second.sig_results {
        assert_eq!(r.value.is_some(), r.matches == 1);
    }
}

fn sig(kind: Kind, name: &str, bytes: Vec<Option<u8>>, capture: Option<(usize, Cap)>, adjust: i64) -> Sig {
    Sig { module: "game.EXE".to_string(), kind, name: name.to_string(), bytes, capture, adjust }
}

#[test]
fn signatures_resolve_by_their_captures() {
    let m = module();
    let call = vec![Some(0x48), Some(0x83), Some(0xEC), Some(0x28), Some(0xE8), None, None, None, None];
    let list = vec![
        sig(Kind::Func, "call", call.clone(), Some((5, Cap::Rel32)), 0),
        sig(Kind::Func, "plain", call.clone(), None, 2),
        sig(Kind::Field, "byte", vec![Some(0x8B), Some(0x41), None, Some(0xC3)], Some((2, Cap::I8)), -1),
        sig(Kind::Field, "none", vec![Some(0xCC), Some(0xCD)], None, 0),
        sig(Kind::Field, "many", vec![Some(0xC3)], None, 0),
    ];
    let res = sigs::apply(&m, &list);
    assert_eq!(res[0].value, Some(CTOR as i64));
    assert_eq!(res[1].value, Some(USER as i64 + 2));
    assert_eq!(res[2].value, Some(0xF));
    assert_eq!((res[3].value, res[3].matches), (None, 0));
    assert_eq!((res[4].value, res[4].matches), (None, 2));
    assert_eq!(sigs::scan(&m, &call, 4), vec![USER]);
    assert_eq!(sigs::scan(&m, &vec![Some(0xC3)], 3).len(), 3);
    assert_eq!(dump::select_sigs(&list, "Game.exe").len(), 5);
    assert_eq!(dump::select_sigs(&list, "Other.exe").len(), 0);
    assert_eq!(dump::exe_index(&vec![module()]), Some(0));
}

#[test]
fn fallback_records_find_names() {
    let list = vec![sig(Kind::Field, "Foo::m_value", vec![Some(0x8B), Some(0x41), None, Some(0xC3)], Some((2, Cap::I8)), 0)];
    let extras = vec![
        Extra::RelSub { name: "Bar::m_c".to_string(), anchor: "Foo::m_b".to_string(), minus: "Foo::m_value".to_string() },
        Extra::Rel { name: "Foo::m_b".to_string(), anchor: "Foo::m_value".to_string(), delta: 4 },
        Extra::VSlot { name: "Foo::read".to_string(), class: "Foo".to_string(), vt_off: 0, index: 1 },
        Extra::VSlot { name: "Foo::none".to_string(), class: "Foo".to_string(), vt_off: 0, index: 9 },
    ];
    let r = dump::run(vec![module()], &list, &extras, &vec![]).unwrap();
    assert_eq!(r.fallback_names, 3);
    let foo = r.named_fields.get(&"Foo".to_string()).unwrap();
    assert_eq!(foo.get(&0x10).unwrap()[0].name, "m_value");
    assert_eq!(foo.get(&0x14).unwrap()[0].name, "m_b");
    let bar = r.named_fields.get(&"Bar".to_string()).unwrap();
    assert_eq!(bar.get(&4).unwrap()[0].name, "m_c");
    assert_eq!(r.world.modules[0].names.get(&GETTER).unwrap().name, "Foo::read");
}

#[test]
fn a_grown_pattern_fits_where_it_comes_from() {
    let m = module();
    for rva in [SCALAR, CTOR, SHARED, USER] {
        if let Some(s) = generate::func_sig(&m, "f", rva) {
            if s.capture.is_none() {
                assert!(sigs::matches_at(m.pe.bytes(rva, s.bytes.len()), 0, &s.bytes));
                assert_eq!(sigs::scan(&m, &s.bytes, 4), vec![rva]);
            }
        }
    }
    let s = generate::func_sig(&m, "f", SHARED).unwrap();
    // The distance to the global is masked.
    assert_eq!(s.bytes[4..11], [Some(0x48), Some(0x8B), Some(0x05), None, None, None, None]);
    let at = SHARED + 4;
    let g = generate::global_sig(&m, "g", at).unwrap();
    assert_eq!(g.capture, Some((3, Cap::Rel32)));
    assert_eq!(sigs::resolve(&m, &g, at), Some(GLOBAL as i64));
    let f = generate::field_sig(&m, "f", CTOR + 10, 0).unwrap();
    assert_eq!(f.capture, Some((2, Cap::I8)));
    assert_eq!(sigs::resolve(&m, &f, CTOR + 10), Some(0x10));
}

#[test]
fn instructions_are_decoded() {
    let add = insn::decode(&[0x48, 0x83, 0xC1, 0x08], 0x1000);
    assert_eq!((add.head.len, add.head.mnemonic), (4, insn::MNEM_ADD));
    assert_eq!(insn::imm_value(&add), Some(8));
    assert_eq!(add.next_ip(), 0x1004);
    assert_eq!(add.operand(0).reg, insn::REG_RCX);
    assert!(!add.uses_memory());
    let load = insn::decode(&[0x8B, 0x41, 0x10], 0);
    assert!(load.uses_memory());
    assert_eq!((load.mem.base, load.mem.disp), (insn::REG_RCX, 0x10));
    assert_eq!(insn::gpr(insn::REG_DL), Some(2));
    assert_eq!(insn::gpr(insn::REG_XMM0), None);
    assert!(insn::is_gpr64(insn::REG_R15) && insn::is_gpr32(insn::REG_EAX));
    assert_eq!(VType::from_mem(load.mem.size).label(), "i32");
}

#[test]
fn constants_are_those_of_the_decoder() {

    assert_eq!(insn::MNEM_ADD, Mnemonic::Add as u32);
    assert_eq!(insn::MNEM_AND, Mnemonic::And as u32);
    assert_eq!(insn::MNEM_LEA, Mnemonic::Lea as u32);
    assert_eq!(insn::MNEM_MOV, Mnemonic::Mov as u32);
    assert_eq!(insn::MNEM_SUB, Mnemonic::Sub as u32);
    assert_eq!(insn::MNEM_TEST, Mnemonic::Test as u32);
    assert_eq!(insn::MNEM_XOR, Mnemonic::Xor as u32);
    assert_eq!(insn::REG_NONE, Register::None as u32);
    assert_eq!(insn::REG_DL, Register::DL as u32);
    assert_eq!(insn::REG_DX, Register::DX as u32);
    assert_eq!(insn::REG_EAX, Register::EAX as u32);
    assert_eq!(insn::REG_EDX, Register::EDX as u32);
    assert_eq!(insn::REG_R15D, Register::R15D as u32);
    assert_eq!(insn::REG_RAX, Register::RAX as u32);
    assert_eq!(insn::REG_RCX, Register::RCX as u32);
    assert_eq!(insn::REG_RDX, Register::RDX as u32);
    assert_eq!(insn::REG_R15, Register::R15 as u32);
    assert_eq!(insn::REG_RIP, Register::RIP as u32);
    assert_eq!(insn::REG_XMM0, Register::XMM0 as u32);
    assert_eq!(insn::REG_XMM1, Register::XMM1 as u32);
    assert_eq!(insn::KIND_REGISTER, OpKind::Register as u32);
    assert_eq!(insn::KIND_NEAR_BRANCH64, OpKind::NearBranch64 as u32);
    assert_eq!(insn::KIND_IMMEDIATE8, OpKind::Immediate8 as u32);
    assert_eq!(insn::KIND_IMMEDIATE8_2ND, OpKind::Immediate8_2nd as u32);
    assert_eq!(insn::KIND_IMMEDIATE8TO16, OpKind::Immediate8to16 as u32);
    assert_eq!(insn::KIND_IMMEDIATE32TO64, OpKind::Immediate32to64 as u32);
    assert_eq!(insn::KIND_MEMORY, OpKind::Memory as u32);
    assert_eq!(insn::FLOW_UNCONDITIONAL_BRANCH, FlowControl::UnconditionalBranch as u32);
    assert_eq!(insn::FLOW_INDIRECT_BRANCH, FlowControl::IndirectBranch as u32);
    assert_eq!(insn::FLOW_CONDITIONAL_BRANCH, FlowControl::ConditionalBranch as u32);
    assert_eq!(insn::FLOW_RETURN, FlowControl::Return as u32);
    assert_eq!(insn::FLOW_CALL, FlowControl::Call as u32);
    assert_eq!(insn::FLOW_INDIRECT_CALL, FlowControl::IndirectCall as u32);
    assert_eq!(insn::FLOW_INTERRUPT, FlowControl::Interrupt as u32);
    assert_eq!(insn::FLOW_EXCEPTION, FlowControl::Exception as u32);
    assert_eq!(insn::ACCESS_READ, OpAccess::Read as u32);
    assert_eq!(insn::ACCESS_COND_READ, OpAccess::CondRead as u32);
    assert_eq!(insn::ACCESS_WRITE, OpAccess::Write as u32);
    assert_eq!(insn::ACCESS_COND_WRITE, OpAccess::CondWrite as u32);
    assert_eq!(insn::ACCESS_READ_WRITE, OpAccess::ReadWrite as u32);
    assert_eq!(insn::ACCESS_READ_COND_WRITE, OpAccess::ReadCondWrite as u32);
    assert_eq!(insn::SIZE_UINT8, MemorySize::UInt8 as u32);
    assert_eq!(insn::SIZE_UINT16, MemorySize::UInt16 as u32);
    assert_eq!(insn::SIZE_UINT32, MemorySize::UInt32 as u32);
    assert_eq!(insn::SIZE_UINT64, MemorySize::UInt64 as u32);
    assert_eq!(insn::SIZE_INT8, MemorySize::Int8 as u32);
    assert_eq!(insn::SIZE_INT16, MemorySize::Int16 as u32);
    assert_eq!(insn::SIZE_INT32, MemorySize::Int32 as u32);
    assert_eq!(insn::SIZE_INT64, MemorySize::Int64 as u32);
    assert_eq!(insn::SIZE_DWORD_OFFSET, MemorySize::DwordOffset as u32);
    assert_eq!(insn::SIZE_QWORD_OFFSET, MemorySize::QwordOffset as u32);
    assert_eq!(insn::SIZE_FLOAT32, MemorySize::Float32 as u32);
    assert_eq!(insn::SIZE_FLOAT64, MemorySize::Float64 as u32);
}

#[test]
fn declared_functions_are_named_where_the_table_has_them() {
    let mut b = Bindings::new();
    b.parse_bro("class Foo { static Foo* make() = win 0x1080; void other() = win 0x1081; void third() = imac 0x1100; }");
    let mut m = module();
    assert_eq!(declared::name_functions(&mut m, &b), 1);
    let n = m.names.get(&CTOR).unwrap();
    assert_eq!((n.name.as_str(), n.source, n.is_static), ("Foo::make", NameSrc::Bindings, true));
    assert!(m.names.get(&0x1081).is_none());
}

#[test]
fn the_order_of_offered_names_does_not_matter() {
    let (mut a, mut b) = (module(), module());
    a.set_name(CTOR, "x".to_string(), NameSrc::Export, false);
    a.set_name(CTOR, "y".to_string(), NameSrc::Signature, true);
    b.set_name(CTOR, "y".to_string(), NameSrc::Signature, true);
    b.set_name(CTOR, "x".to_string(), NameSrc::Export, false);
    let (x, y) = (a.names.get(&CTOR).unwrap(), b.names.get(&CTOR).unwrap());
    assert_eq!((&x.name, x.source, x.is_static), (&y.name, y.source, y.is_static));
}

#[test]
fn the_owner_of_a_vtable_has_it() {
    let r = rtti::scan(&pe());
    for i in 0..r.vtable_owner.len() {
        let (name, at) = r.vtable_owner.value_at(i);
        assert_eq!(r.class(name).unwrap().vtables[*at].rva, *r.vtable_owner.key_at(i));
    }
}

#[test]
fn slots_are_named() {
    let mut m = module();
    m.compute_ownership();
    let w = World::new(vec![m]);
    assert_eq!(w.slot_name(0, "Foo", 0, 0, SCALAR), ("Foo::~Foo".to_string(), None));
    assert_eq!(w.slot_name(0, "Foo", 0, 1, GETTER), ("Foo::getValue".to_string(), None));
    assert_eq!(w.slot_name(0, "Foo", 0, 2, SCALAR_2), ("Foo::vfunc_2".to_string(), None));
    assert_eq!(
        w.slot_name(0, "Foo", 0, 3, IMPORT_STUB),
        ("cocos2d::CCNode::init".to_string(), Some("cocos2d::CCNode".to_string()))
    );
}

fn base(name: &str, mdisp: i32, depth: u32) -> BaseClass {
    BaseClass { name: name.to_string(), mdisp, pdisp: -1, vdisp: 0, attributes: 0, contained: 0, depth }
}

fn class(name: &str, bases: Vec<BaseClass>, size: Option<u64>) -> ClassView {
    let direct = bases.iter().filter(|b| b.depth == 1).cloned().collect();
    ClassView {
        name: name.to_string(),
        module: None,
        direct_bases: direct,
        all_bases: bases,
        size,
        inferred_size: None,
        has_chd: true,
        vptr_offsets: Table::new(),
    }
}

#[test]
fn a_field_belongs_to_the_base_that_declares_it() {
    let mut classes: Table<String, ClassView> = Table::new();
    for c in [
        class("Root", vec![], Some(8)),
        class("First", vec![base("Root", 0, 1)], Some(0x20)),
        class("Second", vec![], None),
        class("D", vec![base("First", 0, 1), base("Root", 0, 2), base("Second", 0x20, 1)], Some(0x40)),
    ] {
        classes.insert(c.name.clone(), c);
    }
    let w = World { modules: vec![], classes, fields: Table::new() };
    let at = |off: i32| w.resolve_field("D", off);
    assert_eq!(at(4), ("Root".to_string(), 4));
    assert_eq!(at(0x10), ("First".to_string(), 0x10));
    assert_eq!(at(0x24), ("Second".to_string(), 4));
    assert_eq!(at(0x28), ("D".to_string(), 0x28));
    assert_eq!(at(-4), ("D".to_string(), -4));
    assert_eq!(w.resolve_field("Other", 3), ("Other".to_string(), 3));
    for off in -8..0x48 {
        let (c, o) = at(off);
        assert_eq!(w.resolve_field(&c, o), (c, o));
    }
    let names = |v: &[&str]| v.iter().map(|s| s.to_string()).collect::<Vec<String>>();
    assert_eq!(w.chain_at("D", 0), names(&["D", "First", "Root"]));
    assert_eq!(w.chain_at("D", 0x20), names(&["Second"]));
    assert_eq!(w.chain_at("Other", 0), names(&[]));
    assert!(w.is_ancestor("Root", "D") && w.is_ancestor("D", "D") && !w.is_ancestor("D", "Root"));
    assert!(w.primary_vtable("D").is_none());
}

#[test]
fn a_named_global_keeps_its_name() {
    let names = vec!["global Foo::s_mine 0x3100".to_string()];
    let r = dump::run(vec![module()], &vec![], &vec![], &names).unwrap();
    assert_eq!(r.named_globals.get(&(0, GLOBAL)), Some(&"Foo::s_mine".to_string()));
    assert_eq!(r.named_globals.get(&(0, GLOBAL + 8)), Some(&"Foo::s_instance".to_string()));
}

#[test]
fn overlapping_matches_are_found() {
    let mut file = game();
    file[0x400 + 0x800..0x400 + 0x803].copy_from_slice(&[0xAA, 0xAA, 0xAA]);
    let m = Module::load("dir/Game.exe", "Game.exe", &file).unwrap();
    let pat = vec![Some(0xAA), Some(0xAA)];
    assert_eq!(sigs::scan(&m, &pat, 10), vec![0x1800, 0x1801]);
    assert_eq!(sigs::scan(&m, &pat, 1), vec![0x1800]);
}

#[test]
fn generated_signatures_resolve_to_what_they_are_for() {
    let m = module();
    for rva in [NEW, SCALAR, CTOR, SHARED, USER] {
        let s = generate::func_sig(&m, "f", rva).unwrap();
        let r = &sigs::apply(&m, &vec![s])[0];
        assert_eq!((r.matches, r.value), (1, Some(rva as i64)));
    }
    let g = generate::global_sig(&m, "g", SHARED_2 + 4).unwrap();
    let f = generate::field_sig(&m, "f", CTOR + 10, 3).unwrap();
    let res = sigs::apply(&m, &vec![g, f]);
    assert_eq!((res[0].matches, res[0].value), (1, Some(GLOBAL as i64 + 8)));
    assert_eq!((res[1].matches, res[1].value), (1, Some(0x13)));
}

#[test]
fn code_is_listed() {
    let lines = disasm::disasm(&pe(), CTOR, 3);
    let bytes: Vec<String> = pe().bytes(CTOR, 7).iter().map(|b| format!("{:02X}", b)).collect();
    assert_eq!(lines.len(), 3);
    assert!(lines[0].starts_with(&format!("  0x00001080  {:<30} lea rax,[", bytes.join(" "))), "{}", lines[0]);
    assert_eq!(lines[1], format!("  0x00001087  {:<30} mov [rcx],rax", "48 89 01"));
    assert_eq!(lines[2], format!("  0x0000108a  {:<30} mov dword ptr [rcx+10h],5", "C7 41 10 05 00 00 00"));
    assert_eq!(disasm::disasm(&pe(), 0x9000, 3).len(), 0);
    assert_eq!(disasm::disasm(&pe(), 0x4FFE, 9).len(), 1);
    let list = disasm::disassemble(&[0x90, 0xC3, 0x06], 0x10, 9);
    assert_eq!(list.len(), 3);
    assert_eq!((list[1].0, list[1].1, list[1].2.as_str()), (0x11, 1, "ret"));
}

#[test]
fn verified_layouts_are_counted() {
    let r = dump::run(vec![module()], &vec![], &vec![], &vec![]).unwrap();
    let mut b = Bindings::new();
    b.parse_bro("class Base { } class Foo : Base { virtual void f(); int m_a; PAD = win 0x30; }");
    assert_eq!(declared::verified_layouts(&r, &b), 0);
    let mut b = Bindings::new();
    b.parse_bro("class Foo { virtual void f(); int m_a; PAD = win 0x24; } class Other { int x; }");
    assert_eq!(declared::verified_layouts(&r, &b), 1);
}
