use system_audio::pcm::{clip, push_sample};
use system_audio::text::{contains, joined, push_decimal, push_signed_decimal};

#[test]
fn numbers_are_decimal() {
    let mut text = String::from("n=");
    push_decimal(&mut text, 0);
    push_decimal(&mut text, 1_234_567_890);
    push_decimal(&mut text, u64::MAX);
    assert_eq!(text, "n=0123456789018446744073709551615");
    let mut signed = String::new();
    push_signed_decimal(&mut signed, -1);
    push_signed_decimal(&mut signed, i32::MIN);
    push_signed_decimal(&mut signed, i32::MAX);
    assert_eq!(signed, "-1-21474836482147483647");
}

#[test]
fn needles_are_found() {
    assert!(contains("abcabd", "abd"));
    assert!(contains("abc", ""));
    assert!(contains("", ""));
    assert!(!contains("", "a"));
    assert!(!contains("abcab", "abd"));
    assert!(contains("→denied←", "denied"));
    assert_eq!(joined("a: ", "→"), "a: →");
}

#[test]
fn samples_clip_to_sixteen_bits() {
    for (sample, expected) in [
        (0, 0i16),
        (32_767, 32_767),
        (32_768, 32_767),
        (i32::MAX, 32_767),
        (-32_768, -32_768),
        (-32_769, -32_768),
        (i32::MIN, -32_768),
    ] {
        assert_eq!(clip(sample), expected);
    }
}

#[test]
fn samples_are_little_endian() {
    let mut bytes = vec![9u8];
    for sample in [0x1234i16, -2, i16::MIN] {
        push_sample(&mut bytes, sample);
    }
    assert_eq!(bytes, vec![9, 0x34, 0x12, 0xfe, 0xff, 0x00, 0x80]);
}
