use cheri_compressed_cap::{Cc128, Cc64, CompressedCapability};

#[test]
fn test_printing() {
    let cap = Cc64::decompress_raw(0, 0, false);
    println!("{:?}", cap);

    let cap = Cc128::decompress_raw(0, 0, false);
    println!("{:?}", cap);
    println!("{}", cap.is_exact());
}

#[test]
fn test_cc128_u128_conversion() {
    // A capability over [0x1000_0000_0000, 0x2000_0000_0000) with the address
    // at its base: top must come back as given.
    let base: u64 = 0x1000_0000_0000;
    let top: u128 = 0x2000_0000_0000;
    let cap = Cc128::make_max_perms_cap(base, base, top);
    assert_eq!(cap.top(), top);
    assert_eq!(cap._cr_top, top);
    assert_eq!(cap.cr_base, base);
}
