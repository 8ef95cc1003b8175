use fesh_comp::bytes::{load_u32, load_u32_be, load_u64, store_u32, store_u32_be, store_u64};
use fesh_comp::category::{
    bswap_cat, category_stride, choose_dict_size, choose_pb, reverse_field, CAT_CODE, CAT_COUNT,
    CAT_DYNAMIC16, CAT_EH, CAT_JT4, CAT_OTHER, CAT_REL16, CAT_RELA24, CAT_RELR8, CAT_S16, CAT_S2,
    CAT_S24, CAT_S4, CAT_S8, CAT_STR, CAT_SYM24,
};
use fesh_comp::error::DecodeError;
use fesh_comp::shuffle::{shuffle_bytes, unshuffle_bytes};
use fesh_comp::varint::{read_varint, write_varint};
use fesh_comp::zigzag::{to_signed, to_unsigned, zigzag_decode, zigzag_encode};

fn sample(len: usize, seed: u64) -> Vec<u8> {
    let mut state = seed.wrapping_mul(0x9E37_79B9_7F4A_7C15).wrapping_add(1);
    let mut out = Vec::with_capacity(len);
    for _ in 0..len {
        state ^= state << 13;
        state ^= state >> 7;
        state ^= state << 17;
        out.push((state >> 24) as u8);
    }
    out
}

#[test]
fn varint_small_values_take_one_byte() {
    let mut buf = Vec::new();
    write_varint(&mut buf, 0);
    write_varint(&mut buf, 0x10);
    write_varint(&mut buf, 0x7F);
    assert_eq!(buf, vec![0x00, 0x10, 0x7F]);
}

#[test]
fn varint_exact_encodings() {
    let mut buf = Vec::new();
    write_varint(&mut buf, 128);
    assert_eq!(buf, vec![0x80, 0x01]);
    let mut buf = Vec::new();
    write_varint(&mut buf, 300);
    assert_eq!(buf, vec![0xAC, 0x02]);
    let mut buf = Vec::new();
    write_varint(&mut buf, u64::MAX);
    assert_eq!(buf, vec![0xFF, 0xFF, 0xFF, 0xFF, 0xFF, 0xFF, 0xFF, 0xFF, 0xFF, 0x01]);
}

#[test]
fn varint_round_trip_of_many_values() {
    let mut values = vec![0u64, 1, 127, 128, 255, 256, 16383, 16384, 0xFFFF_FFFF, u64::MAX];
    for shift in 0..64 {
        values.push(1u64 << shift);
        values.push((1u64 << shift).wrapping_sub(1));
    }
    for v in values {
        let mut buf = vec![0xAA, 0xBB];
        write_varint(&mut buf, v);
        buf.push(0xCC);
        let mut pos = 2usize;
        assert_eq!(read_varint(&buf, &mut pos), Ok(v));
        assert_eq!(pos, buf.len() - 1);
    }
}

#[test]
fn varint_that_runs_out_is_an_error() {
    let mut pos = 0usize;
    assert_eq!(read_varint(&[], &mut pos), Err(DecodeError::VarintEof));
    assert_eq!(pos, 0);
    let mut pos = 0usize;
    assert_eq!(read_varint(&[0x80, 0x80], &mut pos), Err(DecodeError::VarintEof));
    assert_eq!(pos, 0);
    let mut pos = 5usize;
    assert_eq!(read_varint(&[0x01], &mut pos), Err(DecodeError::VarintEof));
}

#[test]
fn varint_of_more_than_ten_bytes_is_an_error() {
    let buf = [0x80u8; 11];
    let mut pos = 0usize;
    assert_eq!(read_varint(&buf, &mut pos), Err(DecodeError::VarintOverflow));
    assert_eq!(pos, 0);
}

#[test]
fn varint_of_a_value_past_64_bits_is_an_error() {
    let buf = [0xFF, 0xFF, 0xFF, 0xFF, 0xFF, 0xFF, 0xFF, 0xFF, 0xFF, 0x01];
    let mut pos = 0usize;
    assert_eq!(read_varint(&buf, &mut pos), Ok(u64::MAX));
    assert_eq!(pos, 10);
    for last in [0x02u8, 0x03, 0x7F, 0x82] {
        let buf = [0xFF, 0xFF, 0xFF, 0xFF, 0xFF, 0xFF, 0xFF, 0xFF, 0xFF, last];
        let mut pos = 0usize;
        assert_eq!(read_varint(&buf, &mut pos), Err(DecodeError::VarintOverflow));
        assert_eq!(pos, 0);
    }
    let buf = [0x80, 0x80, 0x80, 0x80, 0x80, 0x80, 0x80, 0x80, 0x80, 0x81, 0x00];
    let mut pos = 0usize;
    assert_eq!(read_varint(&buf, &mut pos), Err(DecodeError::VarintOverflow));
    let buf = [0x80, 0x80, 0x80, 0x80, 0x80, 0x80, 0x80, 0x80, 0x80, 0x00];
    let mut pos = 0usize;
    assert_eq!(read_varint(&buf, &mut pos), Ok(0));
    assert_eq!(pos, 10);
}

#[test]
fn zigzag_exact_values() {
    assert_eq!(zigzag_encode(0), 0);
    assert_eq!(zigzag_encode(-1), 1);
    assert_eq!(zigzag_encode(1), 2);
    assert_eq!(zigzag_encode(-2), 3);
    assert_eq!(zigzag_encode(i64::MAX), u64::MAX - 1);
    assert_eq!(zigzag_encode(i64::MIN), u64::MAX);
    assert_eq!(zigzag_decode(3), -2);
    assert_eq!(zigzag_decode(4), 2);
}

#[test]
fn zigzag_round_trip() {
    for x in [0i64, 1, -1, 2, -2, 1000, -1000, i64::MAX, i64::MIN, i64::MIN + 1] {
        assert_eq!(zigzag_decode(zigzag_encode(x)), x);
    }
    for u in [0u64, 1, 2, 3, u64::MAX, u64::MAX - 1, 1 << 63] {
        assert_eq!(zigzag_encode(zigzag_decode(u)), u);
    }
}

#[test]
fn signed_and_unsigned_views_of_the_same_bits() {
    assert_eq!(to_signed(u64::MAX), -1);
    assert_eq!(to_signed(1 << 63), i64::MIN);
    assert_eq!(to_unsigned(-1), u64::MAX);
    assert_eq!(to_unsigned(5), 5);
}

#[test]
fn shuffle_places_byte_j_of_record_i_at_j_n_plus_i() {
    let data = [1u8, 2, 3, 4, 5, 6, 7];
    assert_eq!(shuffle_bytes(&data, 2), vec![1, 3, 5, 2, 4, 6, 7]);
    assert_eq!(shuffle_bytes(&data, 3), vec![1, 4, 2, 5, 3, 6, 7]);
    assert_eq!(unshuffle_bytes(&[1, 3, 5, 2, 4, 6, 7], 2), data.to_vec());
}

#[test]
fn shuffle_with_stride_one_or_empty_input_is_identity() {
    let data = [9u8, 8, 7];
    assert_eq!(shuffle_bytes(&data, 1), data.to_vec());
    assert_eq!(shuffle_bytes(&data, 0), data.to_vec());
    assert_eq!(unshuffle_bytes(&data, 1), data.to_vec());
    assert_eq!(shuffle_bytes(&[], 4), Vec::<u8>::new());
    assert_eq!(unshuffle_bytes(&[], 4), Vec::<u8>::new());
}

#[test]
fn shuffle_of_a_stream_shorter_than_the_stride_is_identity() {
    let data = [1u8, 2, 3];
    assert_eq!(shuffle_bytes(&data, 8), data.to_vec());
    assert_eq!(unshuffle_bytes(&data, 8), data.to_vec());
}

#[test]
fn unshuffle_undoes_shuffle_for_every_stride_and_length() {
    for stride in [2usize, 4, 8, 16, 24] {
        for len in 0..100usize {
            let data = sample(len, (stride * 1000 + len) as u64);
            let there = shuffle_bytes(&data, stride);
            assert_eq!(there.len(), data.len());
            assert_eq!(unshuffle_bytes(&there, stride), data);
            assert_eq!(shuffle_bytes(&unshuffle_bytes(&data, stride), stride), data);
        }
    }
}

#[test]
fn strides_of_the_categories() {
    assert_eq!(category_stride(CAT_OTHER as usize), 1);
    assert_eq!(category_stride(CAT_CODE as usize), 1);
    assert_eq!(category_stride(CAT_STR as usize), 1);
    assert_eq!(category_stride(CAT_EH as usize), 1);
    assert_eq!(category_stride(CAT_S2 as usize), 2);
    assert_eq!(category_stride(CAT_S4 as usize), 4);
    assert_eq!(category_stride(CAT_JT4 as usize), 4);
    assert_eq!(category_stride(CAT_S8 as usize), 8);
    assert_eq!(category_stride(CAT_RELR8 as usize), 8);
    assert_eq!(category_stride(CAT_S16 as usize), 16);
    assert_eq!(category_stride(CAT_REL16 as usize), 16);
    assert_eq!(category_stride(CAT_DYNAMIC16 as usize), 16);
    assert_eq!(category_stride(CAT_S24 as usize), 24);
    assert_eq!(category_stride(CAT_RELA24 as usize), 24);
    assert_eq!(category_stride(CAT_SYM24 as usize), 24);
    assert_eq!(category_stride(15), 1);
    assert_eq!(CAT_COUNT, 15);
}

#[test]
fn position_bits_by_category() {
    assert_eq!(choose_pb(CAT_CODE as usize), 2);
    assert_eq!(choose_pb(CAT_EH as usize), 2);
    assert_eq!(choose_pb(CAT_OTHER as usize), 2);
    for cat in [CAT_STR, CAT_S2, CAT_S4, CAT_S8, CAT_RELR8, CAT_S16, CAT_REL16, CAT_DYNAMIC16,
        CAT_S24, CAT_RELA24, CAT_SYM24, CAT_JT4] {
        assert_eq!(choose_pb(cat as usize), 0);
    }
}

#[test]
fn dictionary_size_is_the_next_power_of_two_within_bounds() {
    assert_eq!(choose_dict_size(0), 1 << 16);
    assert_eq!(choose_dict_size(1), 1 << 16);
    assert_eq!(choose_dict_size(1 << 16), 1 << 16);
    assert_eq!(choose_dict_size((1 << 16) + 1), 1 << 17);
    assert_eq!(choose_dict_size(100_000), 1 << 17);
    assert_eq!(choose_dict_size(1 << 20), 1 << 20);
    assert_eq!(choose_dict_size((1 << 26) - 1), 1 << 26);
    assert_eq!(choose_dict_size(1 << 26), 1 << 26);
    assert_eq!(choose_dict_size((1 << 26) + 1), 1 << 26);
    assert_eq!(choose_dict_size(usize::MAX), 1 << 26);
}

#[test]
fn reverse_field_reverses_only_the_field() {
    let mut data = [0u8, 1, 2, 3, 4, 5, 6, 7, 8, 9];
    reverse_field(&mut data, 2, 4);
    assert_eq!(data, [0, 1, 5, 4, 3, 2, 6, 7, 8, 9]);
    reverse_field(&mut data, 0, 0);
    assert_eq!(data, [0, 1, 5, 4, 3, 2, 6, 7, 8, 9]);
}

fn counting(len: usize) -> Vec<u8> {
    (0..len).map(|i| i as u8).collect()
}

#[test]
fn bswap_of_four_byte_words() {
    for cat in [CAT_S4, CAT_JT4] {
        let mut data = counting(10);
        bswap_cat(&mut data, cat as usize);
        assert_eq!(data, vec![3, 2, 1, 0, 7, 6, 5, 4, 8, 9]);
    }
}

#[test]
fn bswap_of_eight_byte_words() {
    for cat in [CAT_S8, CAT_RELR8] {
        let mut data = counting(19);
        bswap_cat(&mut data, cat as usize);
        assert_eq!(
            data,
            vec![7, 6, 5, 4, 3, 2, 1, 0, 15, 14, 13, 12, 11, 10, 9, 8, 16, 17, 18]
        );
    }
}

#[test]
fn bswap_of_sixteen_byte_records_leaves_a_trailing_half_record() {
    for cat in [CAT_S16, CAT_REL16, CAT_DYNAMIC16] {
        let mut data = counting(24);
        bswap_cat(&mut data, cat as usize);
        assert_eq!(
            data,
            vec![
                7, 6, 5, 4, 3, 2, 1, 0, 15, 14, 13, 12, 11, 10, 9, 8, 16, 17, 18, 19, 20, 21, 22,
                23
            ]
        );
    }
}

#[test]
fn bswap_of_twenty_four_byte_records() {
    for cat in [CAT_S24, CAT_RELA24] {
        let mut data = counting(25);
        bswap_cat(&mut data, cat as usize);
        assert_eq!(
            data,
            vec![
                7, 6, 5, 4, 3, 2, 1, 0, 15, 14, 13, 12, 11, 10, 9, 8, 23, 22, 21, 20, 19, 18, 17,
                16, 24
            ]
        );
    }
}

#[test]
fn bswap_of_symbol_records_skips_the_middle_bytes() {
    let mut data = counting(24);
    bswap_cat(&mut data, CAT_SYM24 as usize);
    assert_eq!(
        data,
        vec![
            3, 2, 1, 0, 4, 5, 6, 7, 15, 14, 13, 12, 11, 10, 9, 8, 23, 22, 21, 20, 19, 18, 17, 16
        ]
    );
}

#[test]
fn bswap_leaves_the_other_categories_alone() {
    for cat in [CAT_OTHER as usize, CAT_CODE as usize, CAT_STR as usize, CAT_EH as usize,
        CAT_S2 as usize, 15, 200] {
        let mut data = counting(48);
        bswap_cat(&mut data, cat);
        assert_eq!(data, counting(48));
    }
}

#[test]
fn bswap_twice_is_identity() {
    for cat in 0..16usize {
        for len in [0usize, 1, 7, 8, 23, 24, 47, 48, 100] {
            let data = sample(len, (cat * 100 + len) as u64);
            let mut work = data.clone();
            bswap_cat(&mut work, cat);
            bswap_cat(&mut work, cat);
            assert_eq!(work, data);
        }
    }
}

#[test]
fn little_endian_loads_and_stores() {
    let mut buf = vec![0xEEu8; 12];
    store_u32(&mut buf, 1, 0x0403_0201);
    assert_eq!(buf, vec![0xEE, 1, 2, 3, 4, 0xEE, 0xEE, 0xEE, 0xEE, 0xEE, 0xEE, 0xEE]);
    assert_eq!(load_u32(&buf, 1), 0x0403_0201);
    store_u64(&mut buf, 4, 0x0807_0605_0403_0201);
    assert_eq!(buf, vec![0xEE, 1, 2, 3, 1, 2, 3, 4, 5, 6, 7, 8]);
    assert_eq!(load_u64(&buf, 4), 0x0807_0605_0403_0201);
    assert_eq!(load_u32(&buf, 8), 0x0807_0605);
}

#[test]
fn big_endian_loads_and_stores() {
    let mut buf = vec![0xEEu8; 6];
    store_u32_be(&mut buf, 1, 0x0403_0201);
    assert_eq!(buf, vec![0xEE, 4, 3, 2, 1, 0xEE]);
    assert_eq!(load_u32_be(&buf, 1), 0x0403_0201);
    assert_eq!(load_u32(&buf, 1), 0x0102_0304);
}

#[test]
fn messages_of_the_errors() {
    assert_eq!(DecodeError::TooShort.message(), "input too short");
    assert_eq!(DecodeError::BadMagic.message(), "bad magic");
    assert_eq!(DecodeError::VarintEof.message(), "varint eof");
    assert_eq!(DecodeError::VarintOverflow.message(), "varint overflow");
    assert_eq!(DecodeError::RunsOutOfRange.message(), "runs block out of range");
    assert_eq!(DecodeError::StreamOutOfRange.message(), "stream block out of range");
    assert_eq!(DecodeError::JumpTablesOutOfRange.message(), "jt block out of range");
    assert_eq!(DecodeError::BadCategory.message(), "bad category");
    assert_eq!(DecodeError::RunsExceedLength.message(), "runs exceed output length");
    assert_eq!(
        DecodeError::StreamUnderflow.message(),
        "stream underflow while reconstructing"
    );
    assert_eq!(DecodeError::StreamExtraBytes.message(), "stream has extra bytes");
    assert_eq!(DecodeError::CorruptStream.message(), "corrupt category stream");
    assert_eq!(DecodeError::JumpTableOutOfImage.message(), "jump table outside the image");
}
