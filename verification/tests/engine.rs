use otp::{hex_str_to_u8_vec, u8_vec_to_string, OTPBreaker};

fn encrypt(plain: &[u8], pad: &[u8]) -> Vec<u8> {
    plain.iter().zip(pad.iter()).map(|(p, k)| p ^ k).collect()
}

fn mass(breaker: &OTPBreaker, position: usize) -> u128 {
    (0..=255u8).map(|c| breaker.vote_count(position, c)).sum()
}

#[test]
fn new_engine_has_no_table_and_no_votes() {
    let breaker = OTPBreaker::new();
    assert_eq!(0, breaker.votes_len());
    assert_eq!(0, breaker.vote_count(0, 0x41));
    assert_eq!(Vec::<u8>::new(), breaker.get_likely_pad());
}

#[test]
fn new_engine_decodes_to_nothing() {
    let breaker = OTPBreaker::new();
    assert_eq!(Vec::<u8>::new(), breaker.attempt_decode(&Vec::new()));
    assert_eq!(Vec::<u8>::new(), breaker.attempt_decode(&vec![0xFF, 0x41]));
}

#[test]
fn one_ciphertext_gives_a_zero_pad() {
    let mut breaker = OTPBreaker::new();
    breaker.add_message(hex_str_to_u8_vec("001122").unwrap());
    assert_eq!(3, breaker.votes_len());
    assert_eq!(vec![0, 0, 0], breaker.get_likely_pad());
    for position in 0..3 {
        assert_eq!(0, mass(&breaker, position));
    }
    assert_eq!(vec![0x00, 0x7F, 0x7F], breaker.attempt_decode(&vec![0x80, 0xFF, 0x7F, 0x01]));
}

#[test]
fn empty_ciphertext_is_accepted() {
    let mut breaker = OTPBreaker::new();
    breaker.add_message(Vec::new());
    assert_eq!(0, breaker.votes_len());
    breaker.add_message(vec![0x41]);
    breaker.add_message(Vec::new());
    assert_eq!(1, breaker.votes_len());
    assert_eq!(0, mass(&breaker, 0));
}

#[test]
fn table_grows_to_the_longest_ciphertext() {
    let mut breaker = OTPBreaker::new();
    breaker.add_message(vec![0x00, 0x11]);
    assert_eq!(2, breaker.votes_len());
    breaker.add_message(Vec::new());
    assert_eq!(2, breaker.votes_len());
    breaker.add_message(vec![0x41, 0x20, 0x41, 0x00, 0xFF]);
    assert_eq!(5, breaker.votes_len());
    breaker.add_message(vec![0x61]);
    assert_eq!(5, breaker.votes_len());
}

#[test]
fn votes_of_ciphertexts_of_unequal_length() {
    let mut breaker = OTPBreaker::new();
    breaker.add_message(vec![0x00, 0x11]);
    breaker.add_message(Vec::new());
    breaker.add_message(vec![0x41, 0x20, 0x41, 0x00, 0xFF]);
    breaker.add_message(vec![0x61]);
    assert_eq!(2, breaker.vote_count(0, 0x20));
    assert_eq!(1, breaker.vote_count(0, 0x41));
    assert_eq!(1, breaker.vote_count(0, 0x61));
    assert_eq!(4, mass(&breaker, 0));
    for position in 1..5 {
        assert_eq!(0, mass(&breaker, position));
    }
    assert_eq!(0, breaker.vote_count(5, 0x20));
    assert_eq!(0, breaker.vote_count(usize::MAX, 0x20));
    assert_eq!(vec![0x20, 0, 0, 0, 0], breaker.get_likely_pad());
    assert_eq!(
        vec![0x5F, 0x00, 0x41, 0x7F, 0x00],
        breaker.attempt_decode(&vec![0xFF, 0x80, 0x41, 0x7F, 0x00, 0xAA])
    );
}

#[test]
fn xor_outside_the_letters_casts_no_vote() {
    // 0x40 and 0x5B frame the upper case letters, 0x60 and 0x7B the lower case ones.
    for x in [0x00u8, 0x20, 0x40, 0x5B, 0x60, 0x7B, 0x80, 0xC1, 0xFF] {
        let mut breaker = OTPBreaker::new();
        breaker.add_message(vec![0x33]);
        breaker.add_message(vec![0x33 ^ x]);
        assert_eq!(0, mass(&breaker, 0));
    }
}

#[test]
fn xor_inside_the_letters_casts_two_votes() {
    for x in [0x41u8, 0x4D, 0x5A, 0x61, 0x6D, 0x7A] {
        let mut breaker = OTPBreaker::new();
        breaker.add_message(vec![0x33]);
        breaker.add_message(vec![0x33 ^ x]);
        assert_eq!(2, mass(&breaker, 0));
        assert_eq!(1, breaker.vote_count(0, 0x33 ^ 0x20));
        assert_eq!(1, breaker.vote_count(0, 0x33 ^ x ^ 0x20));
    }
}

#[test]
fn tie_goes_to_the_smallest_candidate() {
    let mut breaker = OTPBreaker::new();
    breaker.add_message(vec![0xF0]);
    breaker.add_message(vec![0xF0 ^ 0x41]);
    // Candidates 0xD0 and 0x91, one vote each.
    assert_eq!(1, breaker.vote_count(0, 0xD0));
    assert_eq!(1, breaker.vote_count(0, 0x91));
    assert_eq!(vec![0x91], breaker.get_likely_pad());
}

#[test]
fn decode_twice_gives_the_same() {
    let mut breaker = OTPBreaker::new();
    breaker.add_message(hex_str_to_u8_vec("206123").unwrap());
    breaker.add_message(hex_str_to_u8_vec("222524").unwrap());
    let target = hex_str_to_u8_vec("39383b").unwrap();
    let first = breaker.attempt_decode(&target);
    let second = breaker.attempt_decode(&target);
    assert_eq!(first, second);
    assert_eq!(3, breaker.votes_len());
}

#[test]
fn decode_length_is_the_shorter_of_target_and_table() {
    let mut breaker = OTPBreaker::new();
    breaker.add_message(vec![1, 2, 3, 4]);
    assert_eq!(0, breaker.attempt_decode(&Vec::new()).len());
    assert_eq!(2, breaker.attempt_decode(&vec![9, 9]).len());
    assert_eq!(4, breaker.attempt_decode(&vec![9, 9, 9, 9]).len());
    assert_eq!(4, breaker.attempt_decode(&vec![9, 9, 9, 9, 9, 9]).len());
}

#[test]
fn decode_output_is_seven_bit() {
    let mut breaker = OTPBreaker::new();
    breaker.add_message(vec![0xF0, 0x80, 0xFF]);
    breaker.add_message(vec![0xF0 ^ 0x41, 0x81, 0x00]);
    let decoded = breaker.attempt_decode(&vec![0xFF, 0xFF, 0xFF]);
    assert_eq!(3, decoded.len());
    for byte in decoded {
        assert_eq!(0, byte & 0x80);
    }
}

#[test]
fn submission_order_keeps_the_evidence() {
    let a = hex_str_to_u8_vec("206123ff").unwrap();
    let b = hex_str_to_u8_vec("222524").unwrap();
    let mut forward = OTPBreaker::new();
    forward.add_message(a.clone());
    forward.add_message(b.clone());
    let mut backward = OTPBreaker::new();
    backward.add_message(b);
    backward.add_message(a);
    assert_eq!(forward.votes_len(), backward.votes_len());
    for position in 0..forward.votes_len() {
        assert_eq!(mass(&forward, position), mass(&backward, position));
        for c in 0..=255u8 {
            assert_eq!(forward.vote_count(position, c), backward.vote_count(position, c));
        }
    }
    assert_eq!(2, mass(&forward, 1));
}

#[test]
fn space_against_letter_votes_for_the_pad() {
    let pad = [0x41u8, 0x41, 0x41];
    let first = encrypt(b"a b", &pad);
    let second = encrypt(b"cde", &pad);
    assert_eq!(hex_str_to_u8_vec("206123").unwrap(), first);
    assert_eq!(hex_str_to_u8_vec("222524").unwrap(), second);

    let mut breaker = OTPBreaker::new();
    breaker.add_message(first.clone());
    breaker.add_message(second.clone());
    // The space met a letter at position 1: the pad byte is among the most voted there.
    assert_eq!(1, breaker.vote_count(1, 0x41));
    for c in 0..=255u8 {
        assert!(breaker.vote_count(1, c) <= breaker.vote_count(1, 0x41));
    }
    assert_eq!(1, breaker.vote_count(1, 0x05));
    assert_eq!(2, mass(&breaker, 1));
    assert_eq!(0, mass(&breaker, 0));
    assert_eq!(0, mass(&breaker, 2));

    // A third text with another letter there settles it.
    let third = encrypt(b"xyz", &pad);
    breaker.add_message(third.clone());
    assert_eq!(2, breaker.vote_count(1, 0x41));
    assert_eq!(1, breaker.vote_count(1, 0x18));
    assert_eq!(vec![0x00, 0x41, 0x00], breaker.get_likely_pad());
    assert_eq!(b' ', breaker.attempt_decode(&first)[1]);
    assert_eq!(b'd', breaker.attempt_decode(&second)[1]);
    assert_eq!(b'y', breaker.attempt_decode(&third)[1]);
    assert_eq!(vec![0x20, 0x20, 0x23], breaker.attempt_decode(&first));
}

#[test]
fn decode_reflects_later_submissions() {
    let mut breaker = OTPBreaker::new();
    breaker.add_message(vec![0x20]);
    assert_eq!(vec![0x20], breaker.attempt_decode(&vec![0x20]));
    breaker.add_message(vec![0x25]);
    // 0x20 ^ 0x25 is no letter.
    assert_eq!(vec![0x20], breaker.attempt_decode(&vec![0x20]));
    breaker.add_message(vec![0x61]);
    // 0x20 ^ 0x61 = 'A' and 0x25 ^ 0x61 = 'D': 0x41 is voted twice, 0x00 and 0x05 once.
    assert_eq!(2, breaker.vote_count(0, 0x41));
    assert_eq!(vec![0x61], breaker.attempt_decode(&vec![0x20]));
}

#[test]
fn five_byte_example() {
    let target_str = "32510ba9ba";
    let ciphertexts_str = [
        "315c4eeaa8",
        "234c02ecbb",
        "32510ba9a7",
        "32510ba9aa",
        "3f561ba9ad",
        "32510bfbac",
        "32510bfbac",
        "315c4eeaa8",
        "271946f9bb",
        "466d06ece9",
    ];
    let mut breaker = OTPBreaker::new();
    for string in ciphertexts_str {
        breaker.add_message(hex_str_to_u8_vec(string).unwrap());
    }
    assert_eq!(vec![0x66, 0x39, 0x6E, 0x89, 0xC9], breaker.get_likely_pad());
    let final_msg: Vec<u8> = breaker.attempt_decode(&hex_str_to_u8_vec(target_str).unwrap());
    let final_str: String = u8_vec_to_string(&final_msg);
    assert_eq!("The s", final_str.as_str());
}

#[test]
fn many_submissions_count_every_pair() {
    // n copies of 0x00 and n of 0x41: each of the n * n mixed pairs votes once for 0x20
    // and once for 0x61.
    let n: u128 = 12;
    let mut breaker = OTPBreaker::new();
    for _ in 0..n {
        breaker.add_message(vec![0x00]);
        breaker.add_message(vec![0x41]);
    }
    assert_eq!(n * n, breaker.vote_count(0, 0x20));
    assert_eq!(n * n, breaker.vote_count(0, 0x61));
    assert_eq!(2 * n * n, mass(&breaker, 0));
    assert_eq!(vec![0x20], breaker.get_likely_pad());
}

#[test]
fn full_example() {
    let target_str = "32510ba9babebbbefd001547a810e67149caee11d945cd7fc81a05e9f85aac650e9052ba6a8cd8257bf14d13e6f0a803b54fde9e77472dbff89d71b57bddef121336cb85ccb8f3315f4b52e301d16e9f52f904";
    let ciphertexts_str = [
        "315c4eeaa8b5f8aaf9174145bf43e1784b8fa00dc71d885a804e5ee9fa40b16349c146fb778cdf2d3aff021dfff5b403b510d0d0455468aeb98622b137dae857553ccd8883a7bc37520e06e515d22c954eba5025b8cc57ee59418ce7dc6bc41556bdb36bbca3e8774301fbcaa3b83b220809560987815f65286764703de0f3d524400a19b159610b11ef3e",
        "234c02ecbbfbafa3ed18510abd11fa724fcda2018a1a8342cf064bbde548b12b07df44ba7191d9606ef4081ffde5ad46a5069d9f7f543bedb9c861bf29c7e205132eda9382b0bc2c5c4b45f919cf3a9f1cb74151f6d551f4480c82b2cb24cc5b028aa76eb7b4ab24171ab3cdadb8356f",
        "32510ba9a7b2bba9b8005d43a304b5714cc0bb0c8a34884dd91304b8ad40b62b07df44ba6e9d8a2368e51d04e0e7b207b70b9b8261112bacb6c866a232dfe257527dc29398f5f3251a0d47e503c66e935de81230b59b7afb5f41afa8d661cb",
        "32510ba9aab2a8a4fd06414fb517b5605cc0aa0dc91a8908c2064ba8ad5ea06a029056f47a8ad3306ef5021eafe1ac01a81197847a5c68a1b78769a37bc8f4575432c198ccb4ef63590256e305cd3a9544ee4160ead45aef520489e7da7d835402bca670bda8eb775200b8dabbba246b130f040d8ec6447e2c767f3d30ed81ea2e4c1404e1315a1010e7229be6636aaa",
        "3f561ba9adb4b6ebec54424ba317b564418fac0dd35f8c08d31a1fe9e24fe56808c213f17c81d9607cee021dafe1e001b21ade877a5e68bea88d61b93ac5ee0d562e8e9582f5ef375f0a4ae20ed86e935de81230b59b73fb4302cd95d770c65b40aaa065f2a5e33a5a0bb5dcaba43722130f042f8ec85b7c2070",
        "32510bfbacfbb9befd54415da243e1695ecabd58c519cd4bd2061bbde24eb76a19d84aba34d8de287be84d07e7e9a30ee714979c7e1123a8bd9822a33ecaf512472e8e8f8db3f9635c1949e640c621854eba0d79eccf52ff111284b4cc61d11902aebc66f2b2e436434eacc0aba938220b084800c2ca4e693522643573b2c4ce35050b0cf774201f0fe52ac9f26d71b6cf61a711cc229f77ace7aa88a2f19983122b11be87a59c355d25f8e4",
        "32510bfbacfbb9befd54415da243e1695ecabd58c519cd4bd90f1fa6ea5ba47b01c909ba7696cf606ef40c04afe1ac0aa8148dd066592ded9f8774b529c7ea125d298e8883f5e9305f4b44f915cb2bd05af51373fd9b4af511039fa2d96f83414aaaf261bda2e97b170fb5cce2a53e675c154c0d9681596934777e2275b381ce2e40582afe67650b13e72287ff2270abcf73bb028932836fbdecfecee0a3b894473c1bbeb6b4913a536ce4f9b13f1efff71ea313c8661dd9a4ce",
        "315c4eeaa8b5f8bffd11155ea506b56041c6a00c8a08854dd21a4bbde54ce56801d943ba708b8a3574f40c00fff9e00fa1439fd0654327a3bfc860b92f89ee04132ecb9298f5fd2d5e4b45e40ecc3b9d59e9417df7c95bba410e9aa2ca24c5474da2f276baa3ac325918b2daada43d6712150441c2e04f6565517f317da9d3",
        "271946f9bbb2aeadec111841a81abc300ecaa01bd8069d5cc91005e9fe4aad6e04d513e96d99de2569bc5e50eeeca709b50a8a987f4264edb6896fb537d0a716132ddc938fb0f836480e06ed0fcd6e9759f40462f9cf57f4564186a2c1778f1543efa270bda5e933421cbe88a4a52222190f471e9bd15f652b653b7071aec59a2705081ffe72651d08f822c9ed6d76e48b63ab15d0208573a7eef027",
        "466d06ece998b7a2fb1d464fed2ced7641ddaa3cc31c9941cf110abbf409ed39598005b3399ccfafb61d0315fca0a314be138a9f32503bedac8067f03adbf3575c3b8edc9ba7f537530541ab0f9f3cd04ff50d66f1d559ba520e89a2cb2a83",
    ];
    let mut breaker = OTPBreaker::new();
    for string in ciphertexts_str {
        breaker.add_message(hex_str_to_u8_vec(string).unwrap());
    }
    assert_eq!(186, breaker.votes_len());
    let target = hex_str_to_u8_vec(target_str).unwrap();
    assert_eq!(83, target.len());
    let decoded = u8_vec_to_string(&breaker.attempt_decode(&target));
    assert_eq!(
        "The secuet messagenis: Whtn using a ~tream cipher, neverxuse the key more than once",
        decoded.as_str()
    );
}

#[test]
fn any_submission_order_gives_the_same_pad() {
    let texts: [Vec<u8>; 4] = [
        hex_str_to_u8_vec("206123").unwrap(),
        hex_str_to_u8_vec("2225").unwrap(),
        hex_str_to_u8_vec("39383b41").unwrap(),
        hex_str_to_u8_vec("206123").unwrap(),
    ];
    let orders: [[usize; 4]; 4] = [[0, 1, 2, 3], [3, 2, 1, 0], [2, 0, 3, 1], [1, 3, 0, 2]];
    let target: Vec<u8> = vec![0x20, 0x20, 0x20, 0x20, 0x20];
    let mut pads: Vec<Vec<u8>> = Vec::new();
    let mut decoded: Vec<Vec<u8>> = Vec::new();
    for order in orders {
        let mut breaker = OTPBreaker::new();
        for i in order {
            breaker.add_message(texts[i].clone());
        }
        assert_eq!(4, breaker.votes_len());
        assert_eq!(4, breaker.vote_count(1, 0x41));
        pads.push(breaker.get_likely_pad());
        decoded.push(breaker.attempt_decode(&target));
    }
    for i in 1..4 {
        assert_eq!(pads[0], pads[i]);
        assert_eq!(decoded[0], decoded[i]);
    }
    assert_eq!(vec![0x00, 0x41, 0x00, 0x00], pads[0]);
    assert_eq!(vec![0x20, 0x61, 0x20, 0x20], decoded[0]);
}
