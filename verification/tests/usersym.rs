use object::write::{Object, StandardSection, Symbol, SymbolSection};
use object::{Architecture, BinaryFormat, Endianness, SymbolFlags, SymbolKind, SymbolScope};
use profiler::symbolize::{resolve_user, resolve_user_loaded, Frame};
use profiler::usersym::{BinarySymbolTable, ProcMaps, UserSymbolCache};

const MAPS_FIXTURE: &str = "\
00400000-00401000 r-xp 00000000 08:01 123456 /usr/bin/fixture
00401000-00402000 rw-p 00001000 08:01 123456 /usr/bin/fixture
7f0000000000-7f0000010000 r-xp 00000000 08:01 654321 /usr/lib/libfixture.so
7fff00000000-7fff00021000 rw-p 00000000 00:00 0 [stack]
";

/// An ELF relocatable object whose `.text` holds `helper_one` at 0x0,
/// `helper_two` at 0x10 and `main_entry` at 0x20, 0x10 bytes each.
fn fixture_bytes() -> Vec<u8> {
    let mut obj = Object::new(BinaryFormat::Elf, Architecture::X86_64, Endianness::Little);
    let text = obj.section_id(StandardSection::Text);
    obj.append_section_data(text, &[0x90; 0x30], 16);
    for (name, value) in [("helper_one", 0x0u64), ("helper_two", 0x10), ("main_entry", 0x20)] {
        obj.add_symbol(Symbol {
            name: name.as_bytes().to_vec(),
            value,
            size: 0x10,
            kind: SymbolKind::Text,
            scope: SymbolScope::Linkage,
            weak: false,
            section: SymbolSection::Section(text),
            flags: SymbolFlags::None,
        });
    }
    obj.write().unwrap()
}

/// Resolves like the profiler does: when the cache asks for a binary's
/// table, the table is read (here: from the in-memory fixture) and cached.
fn resolve_loading(cache: &mut UserSymbolCache, pid: u32, ip: u64) -> Option<(String, u64)> {
    loop {
        match cache.resolve(pid, ip) {
            Ok(found) => return found,
            Err(req) => {
                let table = BinarySymbolTable::from_object_bytes(&fixture_bytes()).ok()?;
                cache.insert_table(req.dev, req.inode, table);
            }
        }
    }
}

#[test]
fn parses_proc_maps_lines() {
    let maps = ProcMaps::parse(MAPS_FIXTURE);
    let e = maps.find(0x400500).unwrap();
    assert_eq!(e.dev, 0x801);
    assert_eq!(e.inode, 123456);
    assert_eq!(e.path.as_deref(), Some("/usr/bin/fixture"));
}

#[test]
fn anonymous_mappings_are_unresolvable() {
    let maps = ProcMaps::parse(MAPS_FIXTURE);
    assert!(maps.find(0x7fff00000100).is_none());
}

#[test]
fn resolves_elf_symbols_by_address() {
    let table = BinarySymbolTable::from_object_bytes(&fixture_bytes()).unwrap();
    assert_eq!(table.resolve(0x0), Some(("helper_one", 0)));
    assert_eq!(table.resolve(0x10), Some(("helper_two", 0)));
    assert_eq!(table.resolve(0x25), Some(("main_entry", 5)));
}

#[test]
fn caches_binary_symbol_table_across_resolves() {
    let mut cache = UserSymbolCache::new();
    let fixture = "/tests/fixtures/fixture.o".to_string();
    let maps_text = format!("00000000-00001000 r-xp 00000000 08:01 999 {fixture}\n");
    cache.set_proc_maps(42, ProcMaps::parse(&maps_text));

    let first = resolve_loading(&mut cache, 42, 0x0);
    let second = resolve_loading(&mut cache, 42, 0x10);

    assert_eq!(first, Some(("helper_one".to_string(), 0)));
    assert_eq!(second, Some(("helper_two".to_string(), 0)));
    assert_eq!(cache.cached_binary_count(), 1);
}

#[test]
fn a_missing_table_is_requested_with_its_binary_and_path() {
    let mut cache = UserSymbolCache::default();
    cache.refresh_proc_maps(7, MAPS_FIXTURE);
    let req = cache.resolve(7, 0x7f0000000123).unwrap_err();
    assert_eq!((req.dev, req.inode, req.path.as_str()), (0x801, 654321, "/usr/lib/libfixture.so"));
    assert_eq!(cache.cached_binary_count(), 0);
    // a pid without maps and an address outside every mapping resolve to nothing
    assert_eq!(cache.resolve(8, 0x400000).unwrap(), None);
    assert_eq!(cache.resolve(7, 0x10).unwrap(), None);
    assert_eq!(cache.resolve(7, 0x7fff00000100).unwrap(), None);
}

#[test]
fn file_offsets_shift_addresses_into_the_file() {
    let mut cache = UserSymbolCache::new();
    cache.refresh_proc_maps(1, "00401000-00402000 r-xp 00000010 08:01 5 /bin/x\n");
    let table = BinarySymbolTable::from_symbols(vec![(0x0, "low".to_string()), (0x20, "high".to_string())]);
    cache.insert_table(0x801, 5, table);
    // 0x401015 - 0x401000 + 0x10 = 0x25
    assert_eq!(cache.resolve(1, 0x401015).unwrap(), Some(("high".to_string(), 5)));
    assert_eq!(resolve_user(&cache, 1, 0x401001).unwrap(), Frame::User("low+0x11".to_string()));
    assert_eq!(resolve_user(&cache, 1, 0x500000).unwrap(), Frame::Unknown);
}

#[test]
fn refreshing_maps_replaces_the_old_ones() {
    let mut cache = UserSymbolCache::new();
    cache.refresh_proc_maps(1, "00001000-00002000 r-xp 00000000 08:01 5 /bin/x\n");
    cache.refresh_proc_maps(1, "00003000-00004000 r-xp 00000000 08:01 6 /bin/y\n");
    assert_eq!(cache.resolve(1, 0x1000).unwrap(), None);
    assert_eq!(cache.resolve(1, 0x3000).unwrap_err().path, "/bin/y");
}

#[test]
fn symbol_tables_keep_the_first_symbol_at_an_address() {
    let table = BinarySymbolTable::from_symbols(vec![
        (0x30, "c".to_string()),
        (0x10, "a".to_string()),
        (0x10, "alias".to_string()),
    ]);
    assert_eq!(table.resolve(0x0f), None);
    assert_eq!(table.resolve(0x10), Some(("a", 0)));
    assert_eq!(table.resolve(0x2f), Some(("a", 0x1f)));
    assert_eq!(table.resolve(0x31), Some(("c", 1)));
}

#[test]
fn malformed_maps_lines_are_skipped_and_paths_keep_their_spaces() {
    let text = "garbage\n00400000-00401000 r-xp 00000000 08:01\n00400000 r-xp 00000000 08:01 1 /x\n10-20 r-xp 0 fd:02 77 /opt/my app/bin\n";
    let maps = ProcMaps::parse(text);
    let e = maps.find(0x10).unwrap();
    assert_eq!((e.start, e.end, e.file_offset), (0x10, 0x20, 0));
    assert_eq!(e.dev, 0xfd02);
    assert_eq!(e.inode, 77);
    assert_eq!(e.path.as_deref(), Some("/opt/my app/bin"));
    assert!(maps.find(0x400000).is_none());
}

#[test]
fn unreadable_object_bytes_are_an_error() {
    assert!(BinarySymbolTable::from_object_bytes(b"not an object file").is_err());
}

#[test]
fn a_loaded_table_is_cached_and_used_and_a_failed_load_is_not() {
    let mut cache = UserSymbolCache::new();
    cache.refresh_proc_maps(3, "00000000-00001000 r-xp 00000000 08:01 999 /bin/fixture\n");
    let req = resolve_user(&cache, 3, 0x12).unwrap_err();
    let f = resolve_user_loaded(&mut cache, 3, 0x12, &req, None);
    assert_eq!(f, Frame::Unknown);
    assert_eq!(cache.cached_binary_count(), 0);
    let table = BinarySymbolTable::from_object_bytes(&fixture_bytes()).ok();
    let f = resolve_user_loaded(&mut cache, 3, 0x12, &req, table);
    assert_eq!(f, Frame::User("helper_two+0x2".to_string()));
    assert_eq!(cache.cached_binary_count(), 1);
    assert_eq!(resolve_user(&cache, 3, 0x25).unwrap(), Frame::User("main_entry+0x5".to_string()));
}

#[test]
fn can_resolve_rejects_file_addresses_beyond_u64() {
    let mut cache = UserSymbolCache::new();
    cache.refresh_proc_maps(9, "00001000-00002000 r-xp ffffffffffffff00 08:01 5 /bin/x\n");
    assert!(cache.can_resolve(9, 0x10ff));
    assert!(!cache.can_resolve(9, 0x1100));
    assert!(cache.can_resolve(9, 0x5000));
    assert!(cache.can_resolve(10, 0x1100));
}

#[test]
fn one_binary_mapped_by_two_processes_is_read_once() {
    let mut cache = UserSymbolCache::new();
    cache.refresh_proc_maps(1, "00400000-00401000 r-xp 00000000 08:01 999 /bin/fixture\n");
    cache.refresh_proc_maps(2, "7f0000000000-7f0000001000 r-xp 00000000 08:01 999 /bin/fixture\n");
    assert_eq!(resolve_loading(&mut cache, 1, 0x400010), Some(("helper_two".to_string(), 0)));
    assert_eq!(cache.cached_binary_count(), 1);
    assert_eq!(cache.resolve(2, 0x7f0000000021).unwrap(), Some(("main_entry".to_string(), 1)));
    assert_eq!(cache.cached_binary_count(), 1);
}
