use cheri_compressed_cap::{Cc128, Cc64, CheriRVFuncs, CompressedCapability, CcxBoundsBits, FfiI128, FfiU128};

const CC128_UNSEALED: u32 = 0x3ffff;
const CC64_UNSEALED: u32 = 15;

#[test]
fn null_capability_from_zero_memory_cc128() {
    let cap = Cc128::decompress_mem(0, 0, false);
    assert!(!cap.tag());
    assert_eq!(cap.base(), 0);
    assert_eq!(cap.top(), 1u128 << 64);
    assert_eq!(cap.otype(), CC128_UNSEALED);
    assert!(!cap.is_sealed());
    assert_eq!(cap.permissions(), 0);
    assert_eq!(cap.cr_pesbt, 0x1ffffc018004);
    assert!(cap.is_exact());
    assert_eq!(cap.mem_representation(), (false, [0, 0]));
}

#[test]
fn null_capability_from_zero_memory_cc64() {
    let cap = Cc64::decompress_mem(0, 0, false);
    assert_eq!(cap.base(), 0);
    assert_eq!(cap.top(), 1u128 << 32);
    assert_eq!(cap.otype(), CC64_UNSEALED);
    assert_eq!(cap.cr_pesbt, 0x7c302);
    assert_eq!(cap.mem_representation(), (false, [0, 0]));
}

#[test]
fn register_round_trip() {
    for &(bits, cursor) in &[(0u64, 0u64), (0x1234_5678_9abc_def0, 0x1000), (u64::MAX, 0xffff_ffff_0000_0000)] {
        for &tag in &[false, true] {
            // a tag only on words whose bounds decode in order
            let reg_tag = tag && Cc128::has_valid_bounds(bits, cursor);
            let cap = Cc128::decompress_raw(bits, cursor, reg_tag);
            assert_eq!(cap.reg_representation(), (reg_tag, [cursor, bits]));
            assert_eq!(Cc128::compress_raw(&cap), bits);
            let mem_tag = tag && Cc128::has_valid_bounds(bits ^ 0x1ffffc018004, cursor);
            let cap = Cc128::decompress_mem(bits, cursor, mem_tag);
            assert_eq!(cap.tag(), mem_tag);
            assert_eq!(Cc128::compress_mem(&cap), bits);
        }
    }
    let cap = Cc128::make_max_perms_cap(0x1000, 0x1000, 0x2000);
    let (tag, [cursor, bits]) = cap.reg_representation();
    assert!(Cc128::has_valid_bounds(bits, cursor));
    assert_eq!(Cc128::decompress_raw(bits, cursor, tag), cap);
    let (tag, [cursor, bits]) = cap.mem_representation();
    assert_eq!(Cc128::decompress_mem(bits, cursor, tag), cap);
    let cap = Cc64::decompress_mem(0xdead_beef, 0x1000, false);
    assert_eq!(cap.mem_representation(), (false, [0x1000, 0xdead_beef]));
    assert_eq!(cap.reg_representation(), (false, [0x1000, 0xdead_beef ^ 0x7c302]));
}

#[test]
fn concrete_region_cc128() {
    let base: u64 = 0x1000_0000_0000;
    let top: u128 = 0x2000_0000_0000;
    let cap = Cc128::make_max_perms_cap(base, base, top);
    assert_eq!(cap.length(), 0x1000_0000_0000);
    assert!(cap.is_exact());
    assert_eq!(cap.otype(), CC128_UNSEALED);
    assert!(!cap.is_sealed());
    assert!(cap.tag());
    assert_eq!(cap.permissions(), 0xfff);
    assert_eq!(cap.software_permissions(), 0xf);
    assert_eq!(cap.offset(), 0);
    assert_eq!(cap.cr_exp, 32);
}

#[test]
fn cursor_move_far_outside_is_not_representable() {
    let cap = Cc128::make_max_perms_cap(0, 0x1000_0000_0000, 0x2000_0000_0000);
    assert!(cap.is_exact());
    assert!(cap.is_representable_with_new_addr(0x1fff_ffff_ffff));
    let far: u64 = 0xffff_0000_0000_0000;
    assert!(!cap.is_representable_with_new_addr(far));
    let (representable, moved) = Cc128::setCapAddr(&cap, far);
    assert!(!representable);
    assert_eq!(moved.address(), far);
    assert!(!Cc128::cursor_keeps_bounds(0, 0x2000_0000_0000, far));
    let decoded = Cc128::decompress_raw(moved.cr_pesbt, far, false);
    assert_ne!(decoded.bounds(), cap.bounds());
    // just outside the bounds, but within the representable region
    assert!(cap.is_representable_with_new_addr(0x2000_0000_0000));
}

#[test]
fn sealed_capability_cannot_leave_bounds() {
    let cap = Cc128::make_max_perms_cap(0x1000, 0x1000, 0x2000);
    let sealed = Cc128::sealCap(&cap, 5);
    assert!(sealed.is_representable_with_new_addr(0x1fff));
    assert!(!sealed.is_representable_with_new_addr(0x2000));
    assert!(cap.is_representable_with_new_addr(0x2000));
}

#[test]
fn seal_then_unseal() {
    let cap = Cc128::make_max_perms_cap(0x1000, 0x1000, 0x2000);
    let sealed = Cc128::sealCap(&cap, 5);
    assert!(sealed.is_sealed());
    assert!(Cc128::isCapSealed(&sealed));
    assert_eq!(sealed.otype(), 5);
    assert!(!Cc128::hasReservedOType(&sealed));
    let unsealed = Cc128::unsealCap(&sealed);
    assert!(!unsealed.is_sealed());
    assert!(Cc128::hasReservedOType(&unsealed));
    assert_eq!(unsealed, cap);

    let cap = Cc64::make_max_perms_cap(0x1000, 0x1000, 0x2000);
    let sealed = Cc64::sealCap(&cap, 5);
    assert!(sealed.is_sealed());
    assert!(!Cc64::unsealCap(&sealed).is_sealed());
}

#[test]
fn inexact_bounds_are_widened() {
    let mut cap = Cc128::make_max_perms_cap(0, 0x12345, 1u128 << 64);
    let exact = cap.set_bounds_unchecked(0x12345, 0x12345 + 0x1_0001);
    assert!(!exact);
    assert!(cap.base() <= 0x12345);
    assert!(cap.top() >= 0x12345 + 0x1_0001);
    assert!(cap.is_exact());
    let exact = cap.set_bounds_unchecked(0x1000, 0x1100);
    assert!(exact);
    assert_eq!(cap.bounds(), (0x1000, 0x1100));
    let (exact, c2) = Cc128::setCapBounds(&cap, 0x1001, 0x9_0000);
    assert!(!exact);
    assert!(c2.base() <= 0x1001 && c2.top() >= 0x9_0000);
}

#[test]
fn small_lengths_are_exact() {
    for len in 0u128..4096 {
        assert_eq!(Cc128::get_representable_length(len), len, "length {}", len);
        assert_eq!(Cc128::get_required_alignment(len), 1);
        assert_eq!(Cc128::get_alignment_mask(len), u64::MAX as u128);
        let cap = Cc128::make_max_perms_cap(0x12345, 0x12345, 0x12345 + len);
        assert_eq!(cap.length(), len);
    }
}

#[test]
fn representable_lengths() {
    // from 4096 bytes on, the exponent moves into the mantissas: alignment 8
    assert_eq!(Cc128::get_representable_length(4095), 4095);
    assert_eq!(Cc128::get_required_alignment(4096), 8);
    assert_eq!(Cc128::get_representable_length(4097), 4104);
    // rounding 8191 up to 8192 overflows the mantissa: the exponent grows
    assert_eq!(Cc128::get_representable_length(8191), 8192);
    assert_eq!(Cc128::get_required_alignment(8191), 16);
    assert_eq!(Cc128::get_representable_length(0x1_0001), 0x1_0080);
    assert_eq!(Cc128::get_required_alignment(0x1_0001), 128);
    assert_eq!(Cc128::get_alignment_mask(0x1_0001), 0xffff_ffff_ffff_ff80);
    assert_eq!(Cc128::getRepresentableLength(0x1_0001), 0x1_0080);
    assert_eq!(Cc128::getRepresentableAlignmentMask(0x1_0001), 0xffff_ffff_ffff_ff80);
    assert_eq!(Cc128::get_representable_length(1u128 << 64), 1u128 << 64);
    assert_eq!(Cc128::get_representable_length((1u128 << 64) - 1), 1u128 << 64);
    assert_eq!(Cc64::get_representable_length(64), 64);
    assert_eq!(Cc64::get_representable_length(65), 72);
    assert_eq!(Cc64::get_representable_length(1u128 << 32), 1u128 << 32);
}

#[test]
fn representable_length_is_idempotent_and_aligned_bases_are_exact() {
    let mut n: u128 = 1;
    while n < (1u128 << 64) {
        for len in [n, n + 1, n + 7, n * 3 / 2 + 1, n * 2 - 1] {
            if len > (1u128 << 64) {
                continue;
            }
            let r = Cc128::get_representable_length(len);
            assert!(r >= len);
            assert_eq!(Cc128::get_representable_length(r), r);
            let a = Cc128::get_required_alignment(len) as u64;
            for base in [0u64, a, a.wrapping_mul(3), 0x4000_0000_0000_0000u64 / a * a] {
                if base as u128 + r <= (1u128 << 64) {
                    let cap = Cc128::make_max_perms_cap(base, base, base as u128 + r);
                    assert_eq!(cap.bounds(), (base, base as u128 + r), "len {} base {}", len, base);
                }
            }
        }
        n *= 2;
    }
}

#[test]
fn offsets_and_bounds_checks() {
    let cap = Cc128::make_max_perms_cap(0x1000, 0x1800, 0x2000);
    assert_eq!(Cc128::getCapOffsetBits(&cap), 0x800);
    assert_eq!(cap.offset(), 0x800);
    assert!(Cc128::inCapBounds(&cap, 0x1000, 0x1000));
    assert!(!Cc128::inCapBounds(&cap, 0x1000, 0x1001));
    assert!(!Cc128::inCapBounds(&cap, 0xfff, 1));
    let (ok, c) = Cc128::setCapOffset(&cap, 0x10);
    assert!(ok);
    assert_eq!(c.address(), 0x1010);
    let (ok, c) = Cc128::incCapOffset(&c, 0x10);
    assert!(ok);
    assert_eq!(c.address(), 0x1020);
    assert_eq!(Cc128::getCapCursor(&c), 0x1020);
    assert_eq!(Cc128::getCapBounds(&c), (0x1000, 0x2000));
    assert_eq!(Cc128::getCapLength(&c), 0x1000);
    assert_eq!(Cc128::getCapBaseBits(&c), 0x1000);
    assert_eq!(Cc128::getCapTop(&c), 0x2000);
    let below = Cc128::decompress_raw(cap.cr_pesbt, 0x800, false);
    assert_eq!(below.offset(), 0x800 - below.base() as i128);
}

#[test]
fn permissions_and_flags() {
    let cap = Cc128::make_max_perms_cap(0x1000, 0x1000, 0x2000);
    let c = Cc128::setCapPerms(&cap, 0x5);
    assert_eq!(Cc128::getCapPerms(&c), 0x5);
    assert_eq!(c.bounds(), cap.bounds());
    assert!(c.is_exact());
    let c = Cc128::setCapFlags(&c, 1);
    assert_eq!(Cc128::getCapFlags(&c), 1);
    let mut c = c;
    c.set_software_permissions(0x3);
    assert_eq!(c.software_permissions(), 0x3);
    c.set_reserved_bits(0x2);
    assert_eq!(c.reserved_bits(), 0x2);
    c.set_flags(0);
    assert_eq!(c.flags(), 0);
    assert_eq!(c.permissions(), 0x5);
    let d = Cc128::invalidateCap(&c);
    assert!(!d.tag());
    assert_ne!(d, c);
}

#[test]
fn bounds_bits_of_null() {
    let bb = Cc128::extract_bounds_bits(0x1ffffc018004);
    assert_eq!(bb, CcxBoundsBits { b: 0, t: 0x1000, e: 52, ie: true });
}

#[test]
fn split_integers() {
    let x: u128 = 0x0123_4567_89ab_cdef_fedc_ba98_7654_3210;
    let s = FfiU128::from(x);
    assert_eq!(s, FfiU128 { bottom: 0xfedc_ba98_7654_3210, top: 0x0123_4567_89ab_cdef });
    assert_eq!(u128::from(s), x);
    let y: i128 = -2;
    let s = FfiI128::from(y);
    assert_eq!(s, FfiI128 { bottom: u64::MAX - 1, top: u64::MAX });
    assert_eq!(i128::from(s), y);
    assert_eq!(i128::from(FfiI128::from(i128::MIN)), i128::MIN);
}

#[test]
fn cc64_rounding_and_aligned_bases() {
    let mut n: u128 = 1;
    while n <= (1u128 << 32) {
        for len in [n - 1, n, n + 1, n + 3, n * 3 / 2 + 1] {
            if len > (1u128 << 32) {
                continue;
            }
            let r = Cc64::get_representable_length(len);
            assert!(r >= len && r <= (1u128 << 32));
            assert_eq!(Cc64::get_representable_length(r), r);
            let a = Cc64::get_required_alignment(len) as u64;
            assert_eq!(Cc64::get_alignment_mask(len), (1u128 << 32) - a as u128);
            for base in [0u64, a, a * 5, 0x8000_0000u64 / a * a] {
                if base as u128 + r <= (1u128 << 32) && base < (1u64 << 32) {
                    let cap = Cc64::make_max_perms_cap(base, base, base as u128 + r);
                    assert_eq!(cap.bounds(), (base, base as u128 + r), "len {} base {}", len, base);
                    assert!(cap.is_exact());
                }
            }
        }
        n *= 2;
    }
}

#[test]
fn cc64_inexact_bounds_are_widened() {
    let mut cap = Cc64::make_max_perms_cap(0, 0x1234_5677, 1u128 << 32);
    let exact = cap.set_bounds_unchecked(0x1234_5677, 0x1234_5677 + 0x10_0001);
    assert!(!exact);
    assert!(cap.base() <= 0x1234_5677);
    assert!(cap.top() >= 0x1234_5677 + 0x10_0001);
    assert!(cap.is_exact());
    assert!(cap.tag());
    assert_eq!(cap.permissions(), 0xfff);
    assert_eq!(cap.software_permissions(), 0);
}

#[test]
fn default_is_plain_zero_data() {
    let cap: cheri_compressed_cap::Cc128Cap = Default::default();
    assert!(!cap.tag());
    assert_eq!(cap.reg_representation(), (false, [0, 0]));
    assert_eq!(cap.bounds(), (0, 0));
    let mut other = Cc128::decompress_raw(0, 0, false);
    assert_eq!(other.bounds(), (0, 0));
    // equality looks at tag, address and metadata word only
    other._cr_top = 0x1000;
    assert_eq!(cap, other);
    other.set_tag(true);
    assert_ne!(cap, other);
}

#[test]
fn sealed_capability_with_top_below_base_cannot_move() {
    // top below base: no tagged capability can be decoded from this word
    assert!(!Cc64::has_valid_bounds(0xf4be, 0xdc));
    let cap = Cc64::decompress_raw(0xf4be, 0xdc, false);
    assert_eq!(cap.otype(), 1);
    assert!(cap.is_sealed());
    assert_eq!(cap.bounds(), (0xe000_0000, 0xc000_0000));
    assert!(!cap.is_representable_with_new_addr(0xe800_0000));
    assert!(!Cc64::is_representable_new_addr(true, cap.base(), cap.length(), cap.address(), 0xe800_0000));
    let (representable, _) = Cc64::setCapAddr(&cap, 0xe800_0000);
    assert!(!representable);
}

#[test]
fn move_keeps_bounds_when_own_word_decodes_the_same() {
    // top beyond the address space: decoded untagged
    assert!(!Cc64::has_valid_bounds(0x5077_e71c, 0xee61_dae9));
    let cap = Cc64::decompress_raw(0x5077_e71c, 0xee61_dae9, false);
    assert!(!cap.is_sealed());
    assert_eq!(cap.bounds(), (0x6000_0000, 0x1_8000_0000));
    assert!(cap.is_representable_with_new_addr(0x2da_3b45));
    let moved = Cc64::decompress_raw(cap.cr_pesbt, 0x2da_3b45, false);
    assert_eq!(moved.bounds(), cap.bounds());
}

#[test]
fn valid_bounds_predicate() {
    // a word whose top decodes to 1.5 * 2^64
    assert!(!Cc128::has_valid_bounds(0x601_8004, 0));
    let cap = Cc128::decompress_raw(0x601_8004, 0, false);
    assert!(cap.top() > 1u128 << 64);
    // the null capability's word is fine
    assert!(Cc128::has_valid_bounds(0x1ffffc018004, 0));
    assert!(Cc64::has_valid_bounds(0x7c302, 0));
}

#[test]
fn constructor_address_must_keep_the_bounds() {
    let top: u128 = 0x2000_0000_0000;
    assert!(Cc128::cursor_keeps_bounds(0, top, 0x1000_0000_0000));
    assert!(!Cc128::cursor_keeps_bounds(0, top, 1u64 << 63));
    let cap = Cc128::make_max_perms_cap(0, 0x1000_0000_0000, top);
    assert!(cap.is_exact());
    assert!(Cc128::cursor_keeps_bounds(0, 1u128 << 64, 0x12345));
    assert!(Cc64::cursor_keeps_bounds(0, 1u128 << 32, 0x1234_5677));
    assert!(Cc128::cursor_keeps_bounds(0x1000, 0x2000, 0x1800));
}

#[test]
fn equality_uses_the_boolean_tag() {
    let a = Cc128::make_max_perms_cap(0x1000, 0x1000, 0x2000);
    let mut b = a;
    b.cr_tag = 2;
    assert!(b.tag());
    assert_eq!(a, b);
}
