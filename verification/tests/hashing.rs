use hashtable::Hashable;

/// djb2 in exact arithmetic, reduced to the width of `usize` at each step.
fn reference_djb2(bytes: &[u8]) -> usize {
    let modulus: u128 = usize::MAX as u128 + 1;
    let mut acc: u128 = 5381;
    for b in bytes {
        acc = (acc * 33 + *b as u128) % modulus;
    }
    acc as usize
}

#[test]
fn integer_hash_is_identity() {
    assert_eq!(0usize.hash(), 0);
    assert_eq!(1usize.hash(), 1);
    assert_eq!(11usize.hash(), 11);
    assert_eq!(123_456_789usize.hash(), 123_456_789);
    assert_eq!(usize::MAX.hash(), usize::MAX);
}

#[test]
fn empty_text_hashes_to_seed() {
    assert_eq!(String::new().hash(), 5381);
}

#[test]
fn single_character_text_hash() {
    assert_eq!("a".to_string().hash(), 177_670);
    assert_eq!("a".to_string().hash(), 5381 * 33 + 97);
    assert_eq!("x".to_string().hash(), 177_693);
}

#[test]
fn three_character_text_hash() {
    assert_eq!("abc".to_string().hash(), 193_485_963);
    assert_eq!("abc".to_string().hash(), ((5381 * 33 + 97) * 33 + 98) * 33 + 99);
}

#[test]
fn text_hash_is_deterministic() {
    let first = "abc".to_string().hash();
    let second = "abc".to_string().hash();
    assert_eq!(first, second);
    let copy = "abc".to_string().clone();
    assert_eq!(copy.hash(), first);
}

#[test]
fn text_hash_depends_on_order() {
    assert_ne!("ab".to_string().hash(), "ba".to_string().hash());
}

#[test]
fn long_text_hash_wraps() {
    let text = "The quick brown fox jumps over the lazy dog".to_string();
    assert_eq!(text.hash(), reference_djb2(text.as_bytes()));
    if usize::BITS == 64 {
        assert_eq!(text.hash() as u64, 3_950_289_020_261_251_294u64);
        assert_eq!("hello world".to_string().hash() as u64, 13_876_786_532_495_509_697u64);
    }
}

#[test]
fn text_hash_goes_by_bytes() {
    let text = "h\u{e9}llo".to_string();
    assert_eq!(text.len(), 6);
    assert_eq!(text.hash(), reference_djb2(text.as_bytes()));
    assert_eq!(text.hash(), reference_djb2(&[104, 195, 169, 108, 108, 111]));
}

fn hash_of<K: Hashable>(key: &K) -> usize {
    key.hash()
}

#[test]
fn hash_through_the_capability() {
    assert_eq!(hash_of(&42usize), 42);
    assert_eq!(hash_of(&"a".to_string()), 177_670);
}
