//! Tests of the tokens.
use ringdl::token::{
    decode_user_data, encode_user_data, STATE_READ_HEADER, STATE_SEND_REQ, STATE_SPLICE_IN,
    STATE_SPLICE_OUT, STATE_WRITE_INITIAL,
};

#[test]
fn token_layout() {
    assert_eq!(encode_user_data(0, STATE_SEND_REQ), 1);
    assert_eq!(encode_user_data(1, STATE_READ_HEADER), 0x102);
    assert_eq!(encode_user_data(0xABCD, STATE_WRITE_INITIAL), 0xABCD03);
    assert_eq!(encode_user_data(15, STATE_SPLICE_IN), 0xF04);
    assert_eq!(encode_user_data(15, 255), 0xFFF);
}

#[test]
fn token_gives_back_its_parts() {
    for id in [0usize, 1, 15, 255, 256, 65536, (1 << 56) - 1] {
        for state in [0u8, STATE_SEND_REQ, STATE_SPLICE_OUT, 255] {
            assert_eq!(decode_user_data(encode_user_data(id, state)), (id, state));
        }
    }
}

#[test]
fn every_token_is_the_token_of_its_parts() {
    for user_data in [0u64, 1, 0xFF, 0x100, 0xDEAD_BEEF_0102_0304, u64::MAX] {
        let (id, state) = decode_user_data(user_data);
        assert_eq!(encode_user_data(id, state), user_data);
    }
}

#[test]
fn connection_numbers_wrap_at_the_limit() {
    assert_eq!(encode_user_data(1 << 56, 4), 4);
}
