use otp::apply_pad;

#[test]
fn apply_pad_small_example() {
    let message: Vec<u8> = [0x00, 0x01, 0x02].to_vec();
    let pad: Vec<u8> = [0x1F, 0x2F, 0x3F].to_vec();
    let result: Vec<u8> = apply_pad(&message, &pad);
    assert_eq!(3, result.len());
    assert_eq!(0x1F, result[0]);
    assert_eq!(0x2E, result[1]);
    assert_eq!(0x3D, result[2]);
}

#[test]
fn apply_pad_clears_the_high_bit() {
    let message: Vec<u8> = vec![0xFF, 0x80, 0x00, 0xC1];
    let pad: Vec<u8> = vec![0x00, 0x00, 0x80, 0x20];
    assert_eq!(vec![0x7F, 0x00, 0x00, 0x61], apply_pad(&message, &pad));
}

#[test]
fn apply_pad_stops_at_the_shorter_argument() {
    let long: Vec<u8> = vec![0x10, 0x20, 0x30, 0x40];
    let short: Vec<u8> = vec![0x01, 0x02];
    assert_eq!(vec![0x11, 0x22], apply_pad(&long, &short));
    assert_eq!(vec![0x11, 0x22], apply_pad(&short, &long));
}

#[test]
fn apply_pad_of_nothing_is_nothing() {
    let empty: Vec<u8> = Vec::new();
    let some: Vec<u8> = vec![1, 2, 3];
    assert_eq!(empty, apply_pad(&empty, &some));
    assert_eq!(empty, apply_pad(&some, &empty));
    assert_eq!(empty, apply_pad(&empty, &empty));
}

#[test]
fn apply_pad_every_byte_pair_is_seven_bit() {
    for m in 0..=255u8 {
        let message: Vec<u8> = vec![m; 256];
        let pad: Vec<u8> = (0..=255u8).collect();
        let result = apply_pad(&message, &pad);
        assert_eq!(256, result.len());
        for p in 0..256usize {
            assert_eq!((m ^ (p as u8)) & 0x7F, result[p]);
            assert_eq!(0, result[p] & 0x80);
        }
    }
}
