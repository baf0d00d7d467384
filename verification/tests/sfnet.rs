use half2k::nnue_sf::{
    carrega_pub, escreve, leb_decode_one, read_le_i16, leb_encode_one, read_leb_i16, read_leb_i32, write_leb_block_i16,
    write_leb_block_i32, LayerStack, RedeSf, L1, L2, L3, NB, PAIR_DIM, PIECE_DIM, THREAT_DIM,
};

fn enc(v: i64) -> Vec<u8> {
    let mut out = Vec::new();
    leb_encode_one(v, &mut out);
    out
}

#[test]
fn signed_leb128_encodings() {
    assert_eq!(enc(0), vec![0x00]);
    assert_eq!(enc(63), vec![0x3f]);
    assert_eq!(enc(64), vec![0xc0, 0x00]);
    assert_eq!(enc(-1), vec![0x7f]);
    assert_eq!(enc(-64), vec![0x40]);
    assert_eq!(enc(-65), vec![0xbf, 0x7f]);
    assert_eq!(enc(300), vec![0xac, 0x02]);
    assert_eq!(enc(i32::MIN as i64).len(), 5);
}

#[test]
fn decoding_gives_the_value_back() {
    for &v in &[0i64, 1, -1, 63, 64, -64, -65, 300, -300, 32767, -32768, 2147483647, -2147483648] {
        let mut bytes = enc(v);
        bytes.push(0x55);
        let mut pos = 0usize;
        let r = leb_decode_one(&bytes, &mut pos, 32);
        assert_eq!(r as i32 as i64, v);
        assert_eq!(pos, bytes.len() - 1);
    }
    // A 16-bit reader sign-extends a short group.
    let mut pos = 0usize;
    assert_eq!(leb_decode_one(&[0x7f], &mut pos, 16), -1);
}

#[test]
fn blocks_read_back_what_was_written() {
    let a: Vec<i16> = vec![0, 1, -1, 32767, -32768, 1234, -4321];
    let b: Vec<i32> = vec![0, -70000, 2147483647, -2147483648, 5];
    let mut out = vec![9u8, 9u8];
    write_leb_block_i16(&a, &mut out);
    let mid = out.len();
    write_leb_block_i32(&b, &mut out);
    assert_eq!(&out[2..19], b"COMPRESSED_LEB128");
    let mut off = 2usize;
    assert_eq!(read_leb_i16(&out, &mut off, a.len()), a);
    assert_eq!(off, mid);
    assert_eq!(read_leb_i32(&out, &mut off, b.len()), b);
    assert_eq!(off, out.len());
}

fn stack(k: i32) -> LayerStack {
    LayerStack {
        fc0w: vec![(k as i8) - 3; L1 * L2],
        fc0b: vec![k * 1000 - 77; L2],
        fc1w: vec![-(k as i8); 2 * L2 * L3],
        fc1b: vec![k; L3],
        fc2w: vec![k as i8; 2 * L2 + 2 * L3],
        fc2b: -5 * k,
    }
}

#[test]
fn a_network_reads_back_from_its_file() {
    let mut net = RedeSf {
        ft_bias: vec![0; L1],
        ft_threat_w: vec![0; THREAT_DIM * L1],
        ft_pair_w: vec![0; PAIR_DIM * L1],
        ft_piece_w: vec![0; PIECE_DIM * L1],
        ft_piece_psqt: vec![0; PIECE_DIM * NB],
        ft_threat_psqt: vec![0; THREAT_DIM * NB],
        ft_pair_psqt: vec![0; PAIR_DIM * NB],
        stacks: (0..NB as i32).map(stack).collect(),
        version: 0x7AF3_2F20,
        hash: 0x1234_5678,
        desc: b"a test network".to_vec(),
        ft_header: [1, 2, 3, 4],
        stack_headers: (0..NB as u8).map(|k| [k, k + 1, k + 2, k + 3]).collect(),
    };
    net.ft_bias[3] = -300;
    net.ft_threat_w[12345] = -7;
    net.ft_pair_w[0] = 100;
    net.ft_piece_w[5] = 12345;
    net.ft_piece_psqt[7] = -70000;
    net.ft_threat_psqt[1] = 99999;
    net.ft_pair_psqt[2] = -1;
    let bytes = escreve(&net);
    let back = carrega_pub(&bytes).expect("a written network reads back");
    assert_eq!(back.version, net.version);
    assert_eq!(back.hash, net.hash);
    assert_eq!(back.desc, net.desc);
    assert_eq!(back.ft_header, net.ft_header);
    assert_eq!(back.ft_bias, net.ft_bias);
    assert!(back.ft_threat_w == net.ft_threat_w);
    assert!(back.ft_pair_w == net.ft_pair_w);
    assert!(back.ft_piece_w == net.ft_piece_w);
    assert_eq!(back.ft_piece_psqt, net.ft_piece_psqt);
    assert_eq!(back.ft_threat_psqt, net.ft_threat_psqt);
    assert_eq!(back.ft_pair_psqt, net.ft_pair_psqt);
    assert_eq!(back.stack_headers, net.stack_headers);
    for k in 0..NB {
        assert_eq!(back.stacks[k].fc0w, net.stacks[k].fc0w);
        assert_eq!(back.stacks[k].fc0b, net.stacks[k].fc0b);
        assert_eq!(back.stacks[k].fc1w, net.stacks[k].fc1w);
        assert_eq!(back.stacks[k].fc1b, net.stacks[k].fc1b);
        assert_eq!(back.stacks[k].fc2w, net.stacks[k].fc2w);
        assert_eq!(back.stacks[k].fc2b, net.stacks[k].fc2b);
    }
    // One byte short of the last stack: refused.
    assert!(carrega_pub(&bytes[..bytes.len() - 1]).is_none());
}

#[test]
fn a_file_too_short_for_its_header_is_refused() {
    assert!(carrega_pub(&[]).is_none());
    assert!(carrega_pub(&[0u8; 11]).is_none());
    // A description longer than the file.
    let mut b = vec![0u8; 40];
    b[8] = 200;
    assert!(carrega_pub(&b).is_none());
}

#[test]
fn plain_little_endian_16_bit_values() {
    let b = [9u8, 0x34, 0x12, 0x00, 0x80, 0xff, 0x7f];
    let mut off = 1usize;
    assert_eq!(read_le_i16(&b, &mut off, 3), vec![0x1234, -32768, 32767]);
    assert_eq!(off, 7);
}
