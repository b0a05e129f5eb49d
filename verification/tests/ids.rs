use squark::ids::uuid_from_bytes;
use squark::uuid;

#[test]
fn uuid_from_bytes_formats_hyphenated_lower_hex() {
    let bytes: [u8; 16] = [
        70, 235, 208, 238, 14, 109, 67, 201, 185, 13, 204, 195, 90, 145, 63, 62,
    ];
    assert_eq!(uuid_from_bytes(bytes), "46ebd0ee-0e6d-43c9-b90d-ccc35a913f3e");
}

#[test]
fn uuid_from_bytes_sets_version_and_variant() {
    assert_eq!(uuid_from_bytes([0; 16]), "00000000-0000-4000-8000-000000000000");
    assert_eq!(uuid_from_bytes([255; 16]), "ffffffff-ffff-4fff-bfff-ffffffffffff");
}

#[test]
fn uuid_has_the_shape_of_a_random_uuid() {
    let id = uuid();
    let chars: Vec<char> = id.chars().collect();
    assert_eq!(chars.len(), 36);
    for (p, c) in chars.iter().enumerate() {
        if p == 8 || p == 13 || p == 18 || p == 23 {
            assert_eq!(*c, '-');
        } else {
            assert!(c.is_ascii_digit() || ('a'..='f').contains(c));
        }
    }
    assert_eq!(chars[14], '4');
    assert!(matches!(chars[19], '8' | '9' | 'a' | 'b'));
}

#[test]
fn uuid_is_fresh_each_time() {
    assert_ne!(uuid(), uuid());
}
