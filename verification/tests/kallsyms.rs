use profiler::kallsyms::Kallsyms;

const FIXTURE: &str = "\
0000000000000000 A fixed_percpu_data
ffffffff81000000 T startup_64
ffffffff81000000 T _stext
ffffffff81200000 T secondary_startup_64
ffffffff81400000 t do_idle
ffffffff81400500 T schedule
";

#[test]
fn resolves_exact_match() {
    let k = Kallsyms::parse(FIXTURE);
    assert_eq!(
        k.resolve(0xffffffff81200000),
        Some(("secondary_startup_64", 0))
    );
}

#[test]
fn resolves_offset_between_symbols() {
    let k = Kallsyms::parse(FIXTURE);
    assert_eq!(k.resolve(0xffffffff81400200), Some(("do_idle", 0x200)));
}

#[test]
fn ip_before_first_symbol_is_unresolved() {
    let k = Kallsyms::parse(FIXTURE);
    // Only the zero-address entry sorts before this, and zero-address
    // entries are never a valid "lower bound" symbol for real IPs
    // since they represent unlocated/undefined symbols.
    assert_eq!(k.resolve(0x10), None);
}

#[test]
fn detects_all_zero_addresses_as_unavailable() {
    let restricted = "0000000000000000 T startup_64\n0000000000000000 T schedule\n";
    let k = Kallsyms::parse(restricted);
    assert!(!k.is_available());
    assert_eq!(k.resolve(0x1234), None);
}

#[test]
fn picks_last_symbol_at_or_before_ip_with_duplicates() {
    let k = Kallsyms::parse(FIXTURE);
    // Two symbols share address 0xffffffff81000000 (_stext is listed
    // after startup_64); binary search should still resolve cleanly.
    assert_eq!(k.resolve(0xffffffff81000000), Some(("_stext", 0)));
}

#[test]
fn unsorted_listing_is_resolved_by_address() {
    let text = "ffffffffc0002000 t mod_b\r\nffffffffc0001000 t mod_a\n  \nnot-hex T bogus\nffffffff81000000 T\nffffffff81000000 T base";
    let k = Kallsyms::parse(text);
    assert!(k.is_available());
    assert_eq!(k.resolve(0xffffffffc0001fff), Some(("mod_a", 0xfff)));
    assert_eq!(k.resolve(0xffffffffc0002001), Some(("mod_b", 1)));
    assert_eq!(k.resolve(0xffffffff81000010), Some(("base", 0x10)));
    assert_eq!(k.resolve(u64::MAX), Some(("mod_b", u64::MAX - 0xffffffffc0002000)));
    assert_eq!(k.resolve(0xffffffff80ffffff), None);
}

#[test]
fn empty_listing_is_unavailable() {
    let k = Kallsyms::parse("");
    assert!(!k.is_available());
    assert_eq!(k.resolve(0), None);
}

#[test]
fn addresses_accept_a_plus_sign_and_uppercase_digits() {
    let k = Kallsyms::parse("+FFFF0000 T upper\n");
    assert_eq!(k.resolve(0xffff0001), Some(("upper", 1)));
}
