use librarc::hash::calchash;
use librarc::nodes::calc_hash;

#[test]
fn hash_of_empty_name_is_zero() {
    assert_eq!(calchash(""), 0);
    assert_eq!(calc_hash(""), 0);
}

#[test]
fn hash_multiplies_by_three_and_adds() {
    // 'a' = 97, 'b' = 98: (97 * 3) + 98 = 389
    assert_eq!(calchash("ab"), 389);
    assert_eq!(calc_hash("ab"), 389);
}

#[test]
fn hash_wraps_at_sixteen_bits() {
    // twelve bytes of 0xFF-free text: the accumulator passes 2^16 and wraps
    let name = "zzzzzzzzzzzz";
    let mut acc: u32 = 0;
    for b in name.bytes() {
        acc = (acc * 3 + b as u32) % 0x10000;
    }
    assert_eq!(calchash(name) as u32, acc);
    assert_eq!(calchash(name), 43056);
}
