use rcu_128::word::{word_cnt, word_dec, word_inc, word_pack, word_ptr};

#[test]
fn pack_and_unpack_round_trip() {
    let w = word_pack(0xdead_beef_1234_5678, 42);
    assert_eq!(word_ptr(w), 0xdead_beef_1234_5678);
    assert_eq!(word_cnt(w), 42);
}

#[test]
fn pack_exact_layout() {
    assert_eq!(word_pack(1, 0), 1u128 << 64);
    assert_eq!(word_pack(0, 7), 7u128);
    assert_eq!(word_pack(3, 5), (3u128 << 64) | 5u128);
}

#[test]
fn increment_touches_only_the_count() {
    let w = word_pack(9, 0);
    let w1 = word_inc(w);
    assert_eq!(word_ptr(w1), 9);
    assert_eq!(word_cnt(w1), 1);
    let w2 = word_inc(w1);
    assert_eq!(word_ptr(w2), 9);
    assert_eq!(word_cnt(w2), 2);
}

#[test]
fn decrement_touches_only_the_count() {
    let w = word_pack(11, 3);
    let w1 = word_dec(w);
    assert_eq!(word_ptr(w1), 11);
    assert_eq!(word_cnt(w1), 2);
}

#[test]
fn count_carries_never_reach_the_pointer() {
    let mut w = word_pack(1, u32::MAX as u64);
    w = word_inc(w);
    assert_eq!(word_ptr(w), 1);
    assert_eq!(word_cnt(w), u32::MAX as u64 + 1);
}
