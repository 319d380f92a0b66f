//! Whole streams: vectors made by a reference encoder, and streams put
//! together bit by bit.

use bitreader::BitReader;
use compression::bitsource::mirror_all;
use compression::deflate::engine::State;
use compression::deflate::inflate;
use compression::deflate::Decompressor;
use compression::deflate::DecompressorError;

/// Writes a stream the way the format packs it: bits fill each byte from the
/// least significant end.
struct BitWriter {
    bytes: Vec<u8>,
    used: u32,
}

fn writer() -> BitWriter {
    BitWriter { bytes: Vec::new(), used: 0 }
}

fn put_bit(w: &mut BitWriter, bit: bool) {
    if w.used % 8 == 0 {
        w.bytes.push(0);
    }
    if bit {
        let last = w.bytes.len() - 1;
        w.bytes[last] |= 1 << (w.used % 8);
    }
    w.used += 1;
}

/// A fixed-width field: least significant bit first.
fn put_field(w: &mut BitWriter, value: u32, count: u32) {
    for i in 0..count {
        put_bit(w, (value >> i) & 1 == 1);
    }
}

/// A Huffman word: most significant bit first.
fn put_word(w: &mut BitWriter, code: u32, len: u32) {
    for i in 0..len {
        put_bit(w, (code >> (len - 1 - i)) & 1 == 1);
    }
}

/// A symbol of the fixed literal/length code.
fn put_fixed_symbol(w: &mut BitWriter, symbol: u32) {
    if symbol < 144 {
        put_word(w, 0x30 + symbol, 8);
    } else if symbol < 256 {
        put_word(w, 0x190 + (symbol - 144), 9);
    } else if symbol < 280 {
        put_word(w, symbol - 256, 7);
    } else {
        put_word(w, 0xc0 + (symbol - 280), 8);
    }
}

fn pad_to_byte(w: &mut BitWriter) {
    while w.used % 8 != 0 {
        put_bit(w, false);
    }
}

fn put_byte(w: &mut BitWriter, byte: u8) {
    put_field(w, byte as u32, 8);
}

/// Pulls from a decoder until the stream has ended; returns each piece.
fn pull_all(input: &[u8]) -> Result<Vec<Vec<u8>>, DecompressorError> {
    let turned = mirror_all(input);
    let mut reader = BitReader::new(&turned);
    let mut decoder = Decompressor::new();
    let mut pieces = Vec::new();
    loop {
        let piece = decoder.decompress(&mut reader)?;
        pieces.push(piece.into_iter().collect());
        if decoder.is_done() {
            return Ok(pieces);
        }
    }
}

fn vector_fixed() -> Vec<u8> {
    vec![
        0xcb, 0x48, 0xcd, 0xc9, 0xc9, 0x57, 0xc8, 0x40, 0x27, 0x01,
    ]
}

fn vector_dynamic() -> Vec<u8> {
    vec![
        0x85, 0x56, 0x5b, 0x6e, 0xc3, 0x30, 0x0c, 0xbb, 0x4a, 0xae, 0x16, 0x63, 0xc6, 0x3a, 0x20, 0xdd,
        0x0a, 0xac, 0x5f, 0x3e, 0xfd, 0xd0, 0x2a, 0x89, 0x48, 0x91, 0xce, 0x7e, 0x9c, 0xf8, 0xa1, 0x17,
        0x45, 0xc9, 0xee, 0x8f, 0xdf, 0xaf, 0xed, 0xe7, 0x7b, 0xe9, 0xfb, 0x77, 0xf4, 0xe7, 0xba, 0x7c,
        0xae, 0xf7, 0xfb, 0xba, 0x3c, 0x6f, 0xaf, 0xff, 0x71, 0x0e, 0xb1, 0x1a, 0xe3, 0x7b, 0xe1, 0x90,
        0xf9, 0xe8, 0xdb, 0x6b, 0xf6, 0x3c, 0x44, 0x62, 0xbe, 0x6e, 0x8f, 0xdb, 0xba, 0x34, 0x3c, 0xf8,
        0x96, 0x8a, 0xf5, 0x38, 0xd9, 0x52, 0x28, 0x96, 0x49, 0x6f, 0x9f, 0xfb, 0x96, 0x26, 0x43, 0x2e,
        0xe6, 0xe8, 0x61, 0x68, 0x8d, 0xb1, 0x5a, 0x69, 0xa7, 0xed, 0xf3, 0x07, 0xd5, 0x80, 0x2b, 0xe4,
        0x4f, 0x8a, 0x35, 0xd6, 0x9d, 0x7e, 0xc1, 0x3a, 0x0a, 0xa5, 0xae, 0xdd, 0xf1, 0x7d, 0x33, 0x2c,
        0x85, 0x68, 0x73, 0xa1, 0x63, 0x5c, 0xdd, 0x80, 0x6c, 0xb2, 0x41, 0x68, 0x71, 0x90, 0x88, 0x81,
        0x7a, 0x5a, 0xbf, 0xb1, 0x9b, 0xb6, 0xc9, 0x0a, 0x00, 0xb9, 0x9f, 0xc0, 0x78, 0xbb, 0x49, 0x4e,
        0xa6, 0xec, 0x38, 0x2a, 0x84, 0x02, 0x84, 0x62, 0x04, 0x0a, 0xe2, 0xe1, 0x18, 0x11, 0xbc, 0x19,
        0xb4, 0x87, 0x23, 0x69, 0x1c, 0x71, 0x8b, 0x33, 0x90, 0x6e, 0x65, 0x01, 0x81, 0x60, 0xfc, 0x66,
        0x73, 0x98, 0x1a, 0x0b, 0xa3, 0xc9, 0xbb, 0x04, 0x0d, 0x9e, 0xb0, 0x8e, 0x9a, 0x38, 0x90, 0xaf,
        0xbc, 0x6e, 0x1c, 0xf8, 0xb0, 0x8c, 0x49, 0x02, 0x3b, 0x06, 0xba, 0x52, 0xf5, 0xf4, 0x3c, 0xb7,
        0x93, 0x72, 0x8e, 0x13, 0x84, 0x1e, 0xcf, 0x9a, 0x86, 0x0c, 0x1e, 0x42, 0xfe, 0x11, 0x38, 0xd8,
        0x64, 0xc4, 0x8d, 0x07, 0x00, 0x43, 0x2d, 0x04, 0x54, 0x2c, 0xa5, 0x30, 0x2d, 0x39, 0xab, 0x10,
        0xb3, 0xc8, 0xf6, 0xb1, 0x1b, 0xb9, 0x1d, 0x50, 0x27, 0xfa, 0x21, 0x4e, 0x4c, 0x88, 0x54, 0xa0,
        0xb1, 0xe1, 0xbb, 0x11, 0x63, 0x8f, 0x8d, 0xf7, 0x8a, 0x83, 0x59, 0xa1, 0xe8, 0x32, 0x29, 0x44,
        0xdb, 0xff, 0x17, 0x01, 0xf9, 0x94, 0xdc, 0xc6, 0xa2, 0xa4, 0x23, 0xc8, 0x43, 0x92, 0x68, 0x4c,
        0x63, 0x2d, 0x62, 0x2a, 0x58, 0xd5, 0x01, 0x00, 0x5f, 0xf9, 0x29, 0x85, 0xda, 0xaa, 0x0a, 0x76,
        0x4b, 0xae, 0x41, 0xf8, 0xad, 0x95, 0xe2, 0x30, 0xf3, 0x5d, 0xcf, 0x90, 0x7b, 0x86, 0x1a, 0x06,
        0x43, 0x1d, 0x04, 0x03, 0x62, 0xec, 0x46, 0xb9, 0x10, 0x8b, 0xdb, 0x90, 0x02, 0x53, 0x72, 0x96,
        0xc8, 0x57, 0x4d, 0xd3, 0x55, 0x87, 0xcd, 0xc0, 0xa4, 0x8b, 0xf7, 0x72, 0x51, 0x50, 0x2e, 0x2e,
        0x5a, 0x14, 0xea, 0x1d, 0x1c, 0x2c, 0x52, 0x48, 0x6a, 0xab, 0x55, 0xf6, 0xb3, 0x29, 0xe9, 0x53,
        0x8c, 0xad, 0x36, 0x1d, 0xa0, 0x91, 0xe6, 0x0a, 0x4c, 0x96, 0x36, 0x03, 0x3b, 0xad, 0x16, 0x1c,
        0xf2, 0x40, 0x7a, 0xeb, 0x98, 0xff, 0xfa, 0xa7, 0x94, 0x47, 0x40, 0x09, 0x6a, 0x1e, 0x78, 0xf2,
        0xe0, 0x10, 0xee, 0x8c, 0xd2, 0x45, 0x46, 0xd9, 0x9a, 0xbc, 0xbd, 0x2a, 0x79, 0x7c, 0xe7, 0x1e,
        0x85, 0xd3, 0x52, 0x42, 0x93, 0xb7, 0xc6, 0xfc, 0x2c, 0x80, 0xe5, 0x92, 0x2f, 0x57, 0x3a, 0x66,
        0x02, 0x05, 0xea, 0x5d, 0xae, 0x4d, 0x0b, 0x2c, 0xd7, 0xa7, 0xf5, 0x19, 0xe6, 0x1f,
    ]
}

fn vector_stored() -> Vec<u8> {
    vec![
        0x01, 0x1d, 0x00, 0xe2, 0xff, 0x73, 0x74, 0x6f, 0x72, 0x65, 0x64, 0x20, 0x62, 0x79, 0x74, 0x65,
        0x73, 0x20, 0x73, 0x74, 0x61, 0x79, 0x20, 0x61, 0x73, 0x20, 0x74, 0x68, 0x65, 0x79, 0x20, 0x61,
        0x72, 0x65,
    ]
}

fn vector_long() -> Vec<u8> {
    vec![
        0xed, 0xd3, 0xf1, 0x63, 0x4c, 0x05, 0x00, 0xc0, 0xf1, 0x33, 0x7a, 0x31, 0xcc, 0x35, 0x5a, 0x4c,
        0xae, 0x6b, 0xf2, 0x62, 0x65, 0xce, 0xb0, 0x6a, 0x58, 0xd7, 0xca, 0xd2, 0x62, 0xce, 0xca, 0xd4,
        0x62, 0xce, 0x70, 0x18, 0xe6, 0x8c, 0x96, 0x86, 0xe7, 0xac, 0xbc, 0x6a, 0x98, 0x6b, 0xd5, 0x68,
        0x38, 0x67, 0x31, 0x35, 0xcc, 0x59, 0xb5, 0x6a, 0x98, 0x33, 0x1a, 0x86, 0x39, 0xc3, 0x30, 0xbc,
        0xce, 0xd2, 0x61, 0xd5, 0x5c, 0xa3, 0x61, 0x78, 0xfa, 0x2b, 0xfa, 0xed, 0xfb, 0xf9, 0x1f, 0x3e,
        0x9a, 0x36, 0x01, 0x01, 0x82, 0x10, 0xd0, 0x46, 0xd3, 0x56, 0x68, 0xa7, 0xeb, 0x1e, 0xd2, 0xd5,
        0x30, 0x24, 0x3a, 0x46, 0x0c, 0x0b, 0x1f, 0x67, 0x1a, 0x9f, 0x60, 0x94, 0x16, 0xa4, 0x4f, 0x77,
        0x7e, 0x57, 0x5a, 0x2e, 0xe7, 0xe6, 0x7d, 0xed, 0xbd, 0xd7, 0x72, 0x4c, 0xf1, 0x88, 0x43, 0xb5,
        0xbd, 0x02, 0x33, 0x2d, 0x69, 0xc9, 0xa3, 0x5d, 0x3b, 0x1d, 0x9f, 0xaa, 0x7f, 0x29, 0x27, 0x8c,
        0x63, 0x53, 0x33, 0x84, 0x90, 0xb0, 0x81, 0xee, 0x53, 0xbe, 0x5b, 0x8e, 0x6f, 0xcb, 0x5e, 0xb5,
        0x4e, 0x0b, 0x0d, 0x12, 0x6b, 0xab, 0xff, 0xb0, 0x7f, 0x52, 0x62, 0x92, 0xa6, 0x06, 0xbd, 0xe0,
        0xbd, 0x5b, 0x5b, 0x2c, 0x3b, 0x32, 0xde, 0xd0, 0x77, 0x0c, 0xb9, 0xaf, 0x38, 0xe5, 0x59, 0xa6,
        0xd1, 0xe1, 0x82, 0xaf, 0xbe, 0x7c, 0x83, 0x75, 0x52, 0x4c, 0x77, 0xf5, 0x62, 0xc5, 0x46, 0xdb,
        0xa6, 0xca, 0x06, 0x41, 0x8c, 0x9d, 0x6c, 0xfb, 0xa6, 0xea, 0x8a, 0xee, 0xc5, 0xa4, 0xf9, 0xae,
        0x33, 0xad, 0x3a, 0x31, 0x36, 0xed, 0x47, 0xcf, 0xed, 0x20, 0xbd, 0xf4, 0x65, 0xc9, 0x21, 0x7d,
        0x87, 0x8c, 0x64, 0xb9, 0xa9, 0xf6, 0x25, 0xf3, 0x7b, 0x65, 0x7f, 0x29, 0x06, 0xcb, 0x7b, 0xf6,
        0x07, 0xd5, 0x21, 0x96, 0xf8, 0x82, 0xbf, 0x0d, 0x5d, 0x52, 0xbe, 0x55, 0x8f, 0xe9, 0xe6, 0xba,
        0xff, 0x29, 0x4c, 0x14, 0xa2, 0x1a, 0x3e, 0x37, 0xce, 0x17, 0x4f, 0x3b, 0x46, 0x66, 0xf6, 0xf6,
        0x2f, 0x4f, 0x4e, 0x17, 0x9b, 0x73, 0x46, 0x68, 0x9f, 0x6d, 0x72, 0x49, 0xed, 0x6a, 0xd6, 0x98,
        0xdf, 0x0d, 0xae, 0x96, 0xa5, 0xc8, 0xeb, 0xce, 0x59, 0x49, 0x4f, 0x2a, 0xb6, 0xb8, 0x8e, 0x9e,
        0x1d, 0x69, 0xa2, 0xaf, 0x3c, 0x6b, 0xb8, 0x7f, 0x9f, 0xf4, 0xa2, 0xba, 0x47, 0x7a, 0x59, 0xf3,
        0x4a, 0x76, 0xa5, 0x10, 0x97, 0xbd, 0x5f, 0xf3, 0xaa, 0x7c, 0x50, 0xf7, 0x4e, 0xfe, 0x29, 0xc3,
        0xfb, 0xe5, 0xaa, 0x98, 0x5a, 0xfc, 0xb8, 0x69, 0x4d, 0x8d, 0x46, 0xfa, 0xa1, 0xe9, 0x59, 0xe7,
        0xf5, 0xc8, 0x2c, 0xb9, 0x26, 0xf8, 0x5d, 0xef, 0xd0, 0xcc, 0x95, 0x8a, 0xb6, 0xe8, 0x9e, 0x76,
        0x62, 0x4e, 0x94, 0xa5, 0xb8, 0xbe, 0xb3, 0xeb, 0x86, 0x6e, 0xa4, 0xfa, 0x7c, 0xca, 0x6a, 0xe3,
        0x63, 0x0d, 0xa5, 0x42, 0x5d, 0xe1, 0x3c, 0xf7, 0x17, 0x96, 0xc1, 0x8e, 0x19, 0x51, 0x1f, 0x59,
        0xfb, 0x14, 0x24, 0x88, 0x79, 0xf1, 0x7d, 0xec, 0xaf, 0x47, 0xd8, 0xa5, 0x67, 0x72, 0x3f, 0xf0,
        0xfe, 0x92, 0xd8, 0x28, 0xa7, 0x34, 0x7f, 0xa6, 0x3f, 0x9a, 0x3f, 0x4c, 0x31, 0x0b, 0xdb, 0x4c,
        0x9d, 0x8b, 0xe3, 0x7c, 0x05, 0xd1, 0x97, 0xac, 0x4f, 0x55, 0xbc, 0xa3, 0xae, 0x8f, 0xf9, 0xcd,
        0x76, 0x39, 0xb6, 0x50, 0xb0, 0x54, 0x3e, 0x6d, 0xfb, 0x3d, 0x6e, 0xb3, 0x6e, 0x61, 0xdd, 0x20,
        0xd7, 0xe3, 0x59, 0x8a, 0x98, 0xdd, 0xf8, 0xbe, 0xe7, 0x85, 0x5c, 0xaf, 0x74, 0x3a, 0xe2, 0x13,
        0xfd, 0x1b, 0xcd, 0xa1, 0x72, 0x44, 0xe2, 0x5d, 0xf3, 0xba, 0xa8, 0xed, 0x8a, 0xd5, 0xd7, 0xd3,
        0x3e, 0x3c, 0xbe, 0xce, 0x92, 0x13, 0xba, 0xc3, 0x30, 0x46, 0x99, 0xa1, 0x76, 0x72, 0x0c, 0x70,
        0xef, 0x0a, 0xcb, 0x13, 0x5a, 0x52, 0x4f, 0x1a, 0x07, 0x15, 0x75, 0x73, 0xb4, 0x6f, 0x99, 0xe2,
        0x1f, 0x51, 0x5f, 0x22, 0x96, 0x06, 0x2e, 0xd7, 0x5e, 0x4d, 0xf7, 0x4b, 0x07, 0x13, 0xce, 0x9a,
        0x7b, 0xe4, 0x05, 0xca, 0x31, 0xa5, 0xfd, 0x9c, 0xcf, 0xd5, 0x4d, 0x50, 0x8c, 0x55, 0x6f, 0x7a,
        0xe6, 0x34, 0x5a, 0x7c, 0x59, 0xad, 0x4b, 0xfc, 0x4b, 0xd5, 0x85, 0xea, 0x62, 0x75, 0xa9, 0x66,
        0x59, 0x40, 0xb6, 0x20, 0x07, 0x2c, 0xd3, 0x7c, 0x24, 0x7c, 0xac, 0x5b, 0x1b, 0xf2, 0x85, 0xe1,
        0xc7, 0xe8, 0x0a, 0xb1, 0x30, 0xfc, 0x8c, 0xe9, 0x6c, 0x82, 0x5b, 0xba, 0x95, 0x7e, 0xd5, 0xd9,
        0xaf, 0x34, 0x5a, 0x0e, 0xca, 0xeb, 0xe1, 0x5d, 0xd4, 0x32, 0x4a, 0x31, 0x89, 0xbb, 0xb5, 0x1b,
        0x02, 0x5b, 0x2c, 0x8d, 0xc9, 0xc7, 0x5d, 0x03, 0x1c, 0xed, 0xd5, 0xd9, 0xca, 0x18, 0xe3, 0xc9,
        0xd4, 0x66, 0x21, 0x3f, 0x6c, 0x97, 0xfb, 0x2d, 0xdf, 0x02, 0x47, 0xdf, 0xb2, 0x03, 0xd6, 0x3f,
        0x42, 0x73, 0xc5, 0xc4, 0xea, 0x69, 0xf6, 0x47, 0x4b, 0x3c, 0xd2, 0x95, 0xa0, 0x9f, 0xbc, 0x1f,
        0xd6, 0x86, 0xcb, 0xba, 0x8c, 0x23, 0xfa, 0x15, 0x21, 0x8b, 0x15, 0xbd, 0xfc, 0xa7, 0xe9, 0x78,
        0xb8, 0xec, 0x4b, 0x2e, 0xef, 0x65, 0xfd, 0x2d, 0x66, 0xad, 0x3a, 0xa1, 0xe2, 0x29, 0xdb, 0xd3,
        0x95, 0xa9, 0x42, 0x51, 0xec, 0x65, 0x5b, 0xef, 0xaa, 0xa9, 0xba, 0x9f, 0x93, 0x6e, 0xba, 0xc6,
        0xb5, 0x3a, 0xc4, 0xca, 0xb4, 0x21, 0x9e, 0x0f, 0x82, 0x9c, 0x52, 0xb7, 0x92, 0xd7, 0xf5, 0x9f,
        0x65, 0xd4, 0xcb, 0xe9, 0xb5, 0xbf, 0x98, 0x2f, 0x94, 0xcd, 0x56, 0x5c, 0x96, 0x0b, 0xf6, 0x25,
        0xd5, 0xf9, 0x96, 0xea, 0x82, 0x39, 0x86, 0xd5, 0x29, 0x7d, 0xd5, 0x51, 0xba, 0x1b, 0xee, 0x79,
        0x85, 0xb5, 0x42, 0x59, 0xc3, 0x63, 0xc6, 0x9b, 0xe2, 0xdb, 0x8e, 0xc3, 0x99, 0xdf, 0xf8, 0x1f,
        0x49, 0x6e, 0x12, 0x33, 0x72, 0x7e, 0xd5, 0x6e, 0x6d, 0x32, 0x48, 0x1f, 0xd7, 0x3c, 0x61, 0x3e,
        0x1f, 0x1c, 0x2f, 0xab, 0x91, 0x33, 0x9d, 0x7f, 0x26, 0xad, 0x57, 0x34, 0x71, 0x2b, 0x3c, 0xfd,
        0xd3, 0x8a, 0x7c, 0xd1, 0x59, 0x7b, 0xfd, 0x2f, 0x4b, 0x3f, 0xab, 0xc3, 0xa4, 0x7d, 0x9a, 0xfd,
        0xd9, 0xb1, 0x42, 0x55, 0xf6, 0x2b, 0x9a, 0x03, 0xf2, 0x6b, 0xba, 0x73, 0xf9, 0x6f, 0x19, 0xfe,
        0x2d, 0x97, 0xc4, 0x86, 0xe2, 0xaf, 0x4c, 0x4f, 0xd4, 0xd8, 0xa4, 0xc1, 0x4d, 0x5b, 0x9d, 0x33,
        0x23, 0x5b, 0xe5, 0x84, 0xe0, 0xf3, 0xde, 0xdd, 0x99, 0x9d, 0x14, 0x7b, 0xd1, 0x22, 0xed, 0xa5,
        0x9c, 0x32, 0x4b, 0x78, 0xfd, 0x2a, 0xd7, 0x5c, 0xdd, 0x61, 0x75, 0x7b, 0x4a, 0x17, 0xe3, 0xe7,
        0x0d, 0x91, 0x42, 0x52, 0xe1, 0x3f, 0xee, 0xae, 0x96, 0x1f, 0x1c, 0xd7, 0xa2, 0xda, 0x5a, 0xb7,
        0x14, 0xd4, 0x88, 0xc1, 0xf1, 0x5b, 0xec, 0x87, 0x22, 0xb4, 0xd2, 0xe6, 0xdc, 0xdb, 0xde, 0x97,
        0x12, 0xd3, 0x64, 0xa5, 0xb9, 0x83, 0xfe, 0xcd, 0xfc, 0x3d, 0x8a, 0x57, 0x78, 0xce, 0xb4, 0xaa,
        0xb8, 0xca, 0x17, 0x1a, 0x3d, 0xd1, 0xba, 0xb1, 0xe2, 0x9c, 0xfa, 0x64, 0xcc, 0x24, 0xdb, 0xe4,
        0xd8, 0x30, 0xc1, 0x57, 0xb9, 0xc9, 0x36, 0x25, 0xee, 0x19, 0xdd, 0x9d, 0xba, 0xef, 0x5d, 0x5f,
        0x65, 0xa5, 0x88, 0x01, 0x8d, 0xff, 0x7a, 0x7e, 0xca, 0x35, 0x4b, 0x6f, 0x47, 0x3c, 0xaa, 0x3f,
        0xd2, 0x5c, 0x20, 0x97, 0x24, 0x7e, 0x68, 0xee, 0x19, 0xf5, 0xbc, 0xe2, 0xf7, 0xad, 0xb3, 0xef,
        0x8d, 0x4f, 0xb2, 0x04, 0x86, 0xf6, 0x37, 0x9c, 0x50, 0xae, 0xa9, 0x2b, 0x1d, 0x3b, 0xdd, 0x03,
        0xc3, 0x82, 0x85, 0xcc, 0xd4, 0xb1, 0xc6, 0xef, 0x8b, 0xbe, 0x74, 0x7c, 0xda, 0xf2, 0xbb, 0xff,
        0xd7, 0xfa, 0x08, 0x31, 0x32, 0xf0, 0x11, 0xed, 0xf4, 0x74, 0xab, 0xf4, 0x5a, 0xc2, 0x78, 0xf3,
        0xd7, 0x79, 0x39, 0x72, 0x45, 0xe9, 0x77, 0xce, 0x6d, 0x75, 0x17, 0x15, 0x77, 0xd5, 0x51, 0xcf,
        0xdf, 0x8d, 0x3e, 0x5f, 0x6b, 0xeb, 0x03, 0xff, 0x43, 0xf5, 0x8e, 0x7a, 0x5f, 0x7d, 0xa8, 0xe1,
        0x3f, 0xff, 0xf9, 0xcf, 0x7f, 0xfe, 0xf3, 0x9f, 0xff, 0xfc, 0xe7, 0x3f, 0xff, 0xf9, 0xcf, 0x7f,
        0xfe, 0xf3, 0x9f, 0xff, 0xfc, 0xe7, 0x3f, 0xff, 0xf9, 0xcf, 0x7f, 0xfe, 0xf3, 0x9f, 0xff, 0xfc,
        0xe7, 0x3f, 0xff, 0xf9, 0xcf, 0x7f, 0xfe, 0xf3, 0x9f, 0xff, 0xfc, 0xe7, 0x3f, 0xff, 0xf9, 0xcf,
        0x7f, 0xfe, 0xf3, 0x9f, 0xff, 0xfc, 0xe7, 0x3f, 0xff, 0xf9, 0xcf, 0x7f, 0xfe, 0xf3, 0x9f, 0xff,
        0xfc, 0xe7, 0x3f, 0xff, 0xf9, 0xcf, 0x7f, 0xfe, 0xf3, 0x9f, 0xff, 0xfc, 0xe7, 0x3f, 0xff, 0xf9,
        0xcf, 0x7f, 0xfe, 0xf3, 0x9f, 0xff, 0xfc, 0xe7, 0x3f, 0xff, 0xf9, 0xcf, 0x7f, 0xfe, 0xf3, 0x9f,
        0xff, 0xfc, 0xe7, 0x3f, 0xff, 0xf9, 0xcf, 0x7f, 0xfe, 0xf3, 0x9f, 0xff, 0xfc, 0xe7, 0x3f, 0xff,
        0xf9, 0xcf, 0x7f, 0xfe, 0xf3, 0x9f, 0xff, 0xfc, 0xe7, 0x3f, 0xff, 0xf9, 0xcf, 0x7f, 0xfe, 0xf3,
        0x9f, 0xff, 0xfc, 0xe7, 0x3f, 0xff, 0xf9, 0xcf, 0x7f, 0xfe, 0xf3, 0x9f, 0xff, 0xfc, 0xe7, 0x3f,
        0xff, 0xf9, 0xcf, 0x7f, 0xfe, 0xf3, 0x9f, 0xff, 0xfc, 0xe7, 0x3f, 0xff, 0xf9, 0xcf, 0x7f, 0xfe,
        0xf3, 0x9f, 0xff, 0xfc, 0xe7, 0x3f, 0xff, 0xf9, 0xcf, 0x7f, 0xfe, 0xf3, 0x9f, 0xff, 0xfc, 0xe7,
        0x3f, 0xff, 0xf9, 0xcf, 0x7f, 0xfe, 0xf3, 0x9f, 0xff, 0xfc, 0xe7, 0x3f, 0xff, 0xf9, 0xcf, 0x7f,
        0xfe, 0xf3, 0x9f, 0xff, 0xfc, 0xe7, 0x3f, 0xff, 0xf9, 0xcf, 0x7f, 0xfe, 0xf3, 0x9f, 0xff, 0xfc,
        0xe7, 0x3f, 0xff, 0xf9, 0xcf, 0x7f, 0xfe, 0xf3, 0x9f, 0xff, 0xfc, 0xe7, 0x3f, 0xff, 0xf9, 0xcf,
        0x7f, 0xfe, 0xf3, 0x9f, 0xff, 0xfc, 0xe7, 0x3f, 0xff, 0xf9, 0xcf, 0x7f, 0xfe, 0xf3, 0x9f, 0xff,
        0xfc, 0xe7, 0x3f, 0xff, 0xf9, 0xcf, 0x7f, 0xfe, 0xf3, 0x9f, 0xff, 0xfc, 0xe7, 0x3f, 0xff, 0xf9,
        0xcf, 0x7f, 0xfe, 0xf3, 0x9f, 0xff, 0xfc, 0xe7, 0x3f, 0xff, 0xf9, 0xcf, 0x7f, 0xfe, 0xf3, 0x9f,
        0xff, 0xfc, 0xe7, 0x3f, 0xff, 0xf9, 0xcf, 0x7f, 0xfe, 0xf3, 0x9f, 0xff, 0xfc, 0xe7, 0x3f, 0xff,
        0xf9, 0xcf, 0x7f, 0xfe, 0xf3, 0x9f, 0xff, 0xfc, 0xe7, 0x3f, 0xff, 0xf9, 0xcf, 0x7f, 0xfe, 0xf3,
        0x9f, 0xff, 0xfc, 0xe7, 0x3f, 0xff, 0xf9, 0xcf, 0x7f, 0xfe, 0xf3, 0x9f, 0xff, 0xfc, 0xe7, 0x3f,
        0xff, 0xf9, 0xcf, 0x7f, 0xfe, 0xf3, 0x9f, 0xff, 0xfc, 0xe7, 0x3f, 0xff, 0xf9, 0xcf, 0x7f, 0xfe,
        0xf3, 0x9f, 0xff, 0xfc, 0xe7, 0x3f, 0xff, 0xf9, 0xcf, 0x7f, 0xfe, 0xf3, 0x9f, 0xff, 0xfc, 0xe7,
        0x3f, 0xff, 0xf9, 0xcf, 0x7f, 0xfe, 0xf3, 0x9f, 0xff, 0xfc, 0xe7, 0x3f, 0xff, 0xf9, 0xff, 0xbf,
        0xfd, 0xff, 0x0f,
    ]
}

fn vector_blocks() -> Vec<u8> {
    vec![
        0x4a, 0xcb, 0x2c, 0x2a, 0x2e, 0x51, 0x48, 0xca, 0xc9, 0x4f, 0xce, 0xd6, 0x51, 0x00, 0x00, 0x00,
        0x00, 0xff, 0xff, 0x2a, 0x4e, 0x4d, 0xce, 0xcf, 0x4b, 0x51, 0x48, 0xca, 0xc9, 0x4f, 0xce, 0xd6,
        0x51, 0x00, 0x00, 0x00, 0x00, 0xff, 0xff, 0x2b, 0xc9, 0xc8, 0x2c, 0x82, 0x72, 0xf4, 0x00,
    ]
}


fn word_salad() -> Vec<u8> {
    let words: [&[u8]; 8] =
        [b"alpha", b"beta", b"gamma", b"delta", b"epsilon", b"zeta", b"eta", b"theta"];
    let mut data = Vec::new();
    let mut x: u64 = 12345;
    while data.len() < 3000 {
        x = (x * 1103515245 + 12345) & 0x7fffffff;
        data.extend_from_slice(words[((x >> 16) % 8) as usize]);
        data.push(b' ');
    }
    data.truncate(3000);
    data
}

fn periodic_noise() -> Vec<u8> {
    let mut data = Vec::new();
    for i in 0..70000usize {
        if i < 32768 {
            data.push(((((i * i) >> 3) ^ i) & 0xff) as u8);
        } else {
            let byte = data[i - 32768];
            data.push(byte);
        }
    }
    data
}

#[test]
fn fixed_block_with_one_literal_decodes_to_a() {
    let stream = [0x73, 0x04, 0x00];
    assert_eq!(inflate(&stream), Ok(b"A".to_vec()));

    let turned = mirror_all(&stream);
    let mut reader = BitReader::new(&turned);
    let mut decoder = Decompressor::new();
    assert_eq!(decoder.state(), State::AwaitingBlockHeader);
    let first: Vec<u8> = decoder.decompress(&mut reader).unwrap().into_iter().collect();
    assert_eq!(first, vec![0x41]);
    assert_eq!(decoder.state(), State::DecodingTokens);
    assert_eq!(decoder.header().bfinal, Some(true));
    let second: Vec<u8> = decoder.decompress(&mut reader).unwrap().into_iter().collect();
    assert_eq!(second, Vec::<u8>::new());
    assert_eq!(decoder.state(), State::Done);
    assert!(decoder.is_done());
    let third: Vec<u8> = decoder.decompress(&mut reader).unwrap().into_iter().collect();
    assert_eq!(third, Vec::<u8>::new());
    assert!(decoder.is_done());
}

#[test]
fn the_same_stream_built_by_hand_matches_the_known_bytes() {
    let mut w = writer();
    put_bit(&mut w, true);
    put_field(&mut w, 1, 2);
    put_fixed_symbol(&mut w, 0x41);
    put_fixed_symbol(&mut w, 256);
    assert_eq!(w.bytes, vec![0x73, 0x04, 0x00]);
}

#[test]
fn reserved_block_type_is_rejected_without_output() {
    assert_eq!(inflate(&[0x07]), Err(DecompressorError::ReservedBlockType));
    assert_eq!(inflate(&[0x06, 0xff, 0xff]), Err(DecompressorError::ReservedBlockType));

    let turned = mirror_all(&[0x07]);
    let mut reader = BitReader::new(&turned);
    let mut decoder = Decompressor::new();
    assert_eq!(decoder.decompress(&mut reader), Err(DecompressorError::ReservedBlockType));
}

#[test]
fn stored_block_with_wrong_complement_is_rejected() {
    let stream = [0x01, 0x05, 0x00, 0x00, 0x00, b'a', b'b', b'c', b'd', b'e'];
    assert_eq!(inflate(&stream), Err(DecompressorError::StoredBlockLengthMismatch));
    assert_eq!(pull_all(&stream), Err(DecompressorError::StoredBlockLengthMismatch));
    let off_by_one = [0x01, 0x05, 0x00, 0xfb, 0xff, b'a', b'b', b'c', b'd', b'e'];
    assert_eq!(inflate(&off_by_one), Err(DecompressorError::StoredBlockLengthMismatch));
}

#[test]
fn stored_block_is_copied_as_it_is() {
    let stream = [0x01, 0x05, 0x00, 0xfa, 0xff, b'h', b'e', b'l', b'l', b'o'];
    assert_eq!(inflate(&stream), Ok(b"hello".to_vec()));
    assert_eq!(pull_all(&stream), Ok(vec![b"hello".to_vec()]));
}

#[test]
fn empty_stored_blocks_put_out_nothing() {
    let stream = [0x00, 0x00, 0x00, 0xff, 0xff, 0x01, 0x00, 0x00, 0xff, 0xff];
    assert_eq!(inflate(&stream), Ok(Vec::new()));
    assert_eq!(pull_all(&stream), Ok(vec![Vec::new()]));
}

#[test]
fn stored_block_cut_short_is_end_of_input() {
    let stream = [0x01, 0x05, 0x00, 0xfa, 0xff, b'h', b'e', b'l'];
    assert_eq!(inflate(&stream), Err(DecompressorError::UnexpectedEndOfInput));
    assert_eq!(inflate(&[0x01, 0x05, 0x00, 0xfa]), Err(DecompressorError::UnexpectedEndOfInput));
}

#[test]
fn empty_input_is_end_of_input() {
    assert_eq!(inflate(&[]), Err(DecompressorError::UnexpectedEndOfInput));
}

#[test]
fn reference_behind_the_start_of_output_is_rejected() {
    let mut w = writer();
    put_bit(&mut w, true);
    put_field(&mut w, 1, 2);
    put_fixed_symbol(&mut w, b'a' as u32);
    put_fixed_symbol(&mut w, b'b' as u32);
    put_fixed_symbol(&mut w, b'c' as u32);
    // length 3, distance 10: symbol 257, distance symbol 6 (base 9) with two extra bits = 1
    put_fixed_symbol(&mut w, 257);
    put_word(&mut w, 6, 5);
    put_field(&mut w, 1, 2);
    put_fixed_symbol(&mut w, 256);
    assert_eq!(inflate(&w.bytes), Err(DecompressorError::InvalidDistance));
}

#[test]
fn reference_to_the_very_first_byte_is_accepted() {
    let mut w = writer();
    put_bit(&mut w, true);
    put_field(&mut w, 1, 2);
    put_fixed_symbol(&mut w, b'a' as u32);
    put_fixed_symbol(&mut w, b'b' as u32);
    put_fixed_symbol(&mut w, b'c' as u32);
    // length 3, distance 3
    put_fixed_symbol(&mut w, 257);
    put_word(&mut w, 2, 5);
    put_fixed_symbol(&mut w, 256);
    assert_eq!(inflate(&w.bytes), Ok(b"abcabc".to_vec()));
}

#[test]
fn overlapping_reference_repeats_what_it_has_just_written() {
    let mut w = writer();
    put_bit(&mut w, true);
    put_field(&mut w, 1, 2);
    put_fixed_symbol(&mut w, b'A' as u32);
    put_fixed_symbol(&mut w, b'B' as u32);
    // length 4, distance 2
    put_fixed_symbol(&mut w, 258);
    put_word(&mut w, 1, 5);
    put_fixed_symbol(&mut w, 256);
    assert_eq!(inflate(&w.bytes), Ok(b"ABABAB".to_vec()));
    assert_eq!(
        pull_all(&w.bytes),
        Ok(vec![b"A".to_vec(), b"B".to_vec(), b"ABAB".to_vec(), Vec::new()])
    );
}

#[test]
fn distance_one_repeats_one_byte() {
    let mut w = writer();
    put_bit(&mut w, true);
    put_field(&mut w, 1, 2);
    put_fixed_symbol(&mut w, b'x' as u32);
    // length 5, distance 1
    put_fixed_symbol(&mut w, 259);
    put_word(&mut w, 0, 5);
    put_fixed_symbol(&mut w, 256);
    assert_eq!(inflate(&w.bytes), Ok(b"xxxxxx".to_vec()));
}

#[test]
fn longest_reference_has_258_bytes() {
    let mut w = writer();
    put_bit(&mut w, true);
    put_field(&mut w, 1, 2);
    put_fixed_symbol(&mut w, b'z' as u32);
    put_fixed_symbol(&mut w, 285);
    put_word(&mut w, 0, 5);
    // length 257 = base 227 (symbol 284) + 30 in five extra bits
    put_fixed_symbol(&mut w, 284);
    put_field(&mut w, 30, 5);
    put_word(&mut w, 0, 5);
    put_fixed_symbol(&mut w, 256);
    assert_eq!(inflate(&w.bytes), Ok(vec![b'z'; 1 + 258 + 257]));
}

#[test]
fn length_and_distance_extra_bits_count_from_the_least_significant() {
    let mut w = writer();
    put_bit(&mut w, true);
    put_field(&mut w, 1, 2);
    for i in 0..20u32 {
        put_fixed_symbol(&mut w, b'a' as u32 + i);
    }
    // length 13 + 1 = 14 (symbol 266, one extra bit), distance 17 + 2 = 19 (symbol 8, three extra bits)
    put_fixed_symbol(&mut w, 266);
    put_field(&mut w, 1, 1);
    put_word(&mut w, 8, 5);
    put_field(&mut w, 2, 3);
    put_fixed_symbol(&mut w, 256);
    let mut expected: Vec<u8> = (0..20u8).map(|i| b'a' + i).collect();
    for i in 0..14 {
        let byte = expected[20 - 19 + i];
        expected.push(byte);
    }
    assert_eq!(inflate(&w.bytes), Ok(expected));
}

#[test]
fn distance_of_a_whole_window_is_accepted() {
    let mut w = writer();
    // a stored block of 32768 bytes, not the last
    put_bit(&mut w, false);
    put_field(&mut w, 0, 2);
    pad_to_byte(&mut w);
    put_field(&mut w, 32768, 16);
    put_field(&mut w, 65535 - 32768, 16);
    let mut expected = Vec::new();
    for i in 0..32768u32 {
        let byte = (i % 251) as u8;
        put_byte(&mut w, byte);
        expected.push(byte);
    }
    // a fixed block: length 3, distance 32768 = base 24577 (symbol 29) + 8191
    put_bit(&mut w, true);
    put_field(&mut w, 1, 2);
    put_fixed_symbol(&mut w, 257);
    put_word(&mut w, 29, 5);
    put_field(&mut w, 8191, 13);
    put_fixed_symbol(&mut w, 256);
    expected.extend_from_slice(&[0, 1, 2]);
    assert_eq!(inflate(&w.bytes), Ok(expected));
}

#[test]
fn distance_of_a_whole_window_needs_a_whole_window() {
    let mut w = writer();
    put_bit(&mut w, false);
    put_field(&mut w, 0, 2);
    pad_to_byte(&mut w);
    put_field(&mut w, 32767, 16);
    put_field(&mut w, 65535 - 32767, 16);
    for i in 0..32767u32 {
        put_byte(&mut w, (i % 251) as u8);
    }
    put_bit(&mut w, true);
    put_field(&mut w, 1, 2);
    put_fixed_symbol(&mut w, 257);
    put_word(&mut w, 29, 5);
    put_field(&mut w, 8191, 13);
    put_fixed_symbol(&mut w, 256);
    assert_eq!(inflate(&w.bytes), Err(DecompressorError::InvalidDistance));
}

#[test]
fn bytes_that_left_the_window_cannot_be_referred_to() {
    // 32769 bytes of output: the window holds the last 32768, and the
    // longest distance, 32768, reaches the second byte of the output.
    let mut w = writer();
    put_bit(&mut w, false);
    put_field(&mut w, 0, 2);
    pad_to_byte(&mut w);
    put_field(&mut w, 32769, 16);
    put_field(&mut w, 65535 - 32769, 16);
    let mut expected = Vec::new();
    for i in 0..32769u32 {
        let byte = (i % 253) as u8;
        put_byte(&mut w, byte);
        expected.push(byte);
    }
    put_bit(&mut w, true);
    put_field(&mut w, 1, 2);
    put_fixed_symbol(&mut w, 257);
    put_word(&mut w, 29, 5);
    put_field(&mut w, 8191, 13);
    put_fixed_symbol(&mut w, 256);
    expected.extend_from_slice(&[1, 2, 3]);
    assert_eq!(inflate(&w.bytes), Ok(expected));
}

#[test]
fn literal_length_symbol_286_names_no_code() {
    let mut w = writer();
    put_bit(&mut w, true);
    put_field(&mut w, 1, 2);
    put_fixed_symbol(&mut w, b'a' as u32);
    put_fixed_symbol(&mut w, 286);
    put_field(&mut w, 0, 16);
    assert_eq!(inflate(&w.bytes), Err(DecompressorError::InvalidHuffmanCode));
}

#[test]
fn distance_symbol_30_names_no_code() {
    let mut w = writer();
    put_bit(&mut w, true);
    put_field(&mut w, 1, 2);
    put_fixed_symbol(&mut w, b'a' as u32);
    put_fixed_symbol(&mut w, 257);
    put_word(&mut w, 30, 5);
    put_field(&mut w, 0, 16);
    assert_eq!(inflate(&w.bytes), Err(DecompressorError::InvalidHuffmanCode));
}

#[test]
fn stream_that_ends_within_a_word_is_end_of_input() {
    let mut w = writer();
    put_bit(&mut w, true);
    put_field(&mut w, 1, 2);
    put_fixed_symbol(&mut w, b'a' as u32);
    // five bits of padding follow, all zero: the beginning of a word
    assert_eq!(inflate(&w.bytes), Err(DecompressorError::UnexpectedEndOfInput));
    assert_eq!(inflate(&[0x03]), Err(DecompressorError::UnexpectedEndOfInput));
}

/// A dynamic block header with the code-length code { 0: 1 bit, 16: 1 bit }.
fn dynamic_header_with_repeat_code(w: &mut BitWriter) {
    put_bit(w, true);
    put_field(w, 2, 2);
    put_field(w, 0, 5);
    put_field(w, 0, 5);
    put_field(w, 0, 4);
    // four fields, for the symbols 16, 17, 18, 0
    put_field(w, 1, 3);
    put_field(w, 0, 3);
    put_field(w, 0, 3);
    put_field(w, 1, 3);
}

#[test]
fn repeat_with_nothing_before_it_is_an_invalid_description() {
    let mut w = writer();
    dynamic_header_with_repeat_code(&mut w);
    // symbol 16 is the word 1, then two extra bits
    put_word(&mut w, 1, 1);
    put_field(&mut w, 0, 2);
    put_field(&mut w, 0, 16);
    assert_eq!(inflate(&w.bytes), Err(DecompressorError::InvalidDynamicTableDescription));
}

#[test]
fn run_past_the_announced_count_is_an_invalid_description() {
    let mut w = writer();
    dynamic_header_with_repeat_code(&mut w);
    // 258 lengths are announced: 256 zeros, then a repeat of 3 runs past the end
    for _ in 0..256 {
        put_word(&mut w, 0, 1);
    }
    put_word(&mut w, 1, 1);
    put_field(&mut w, 0, 2);
    put_field(&mut w, 0, 16);
    assert_eq!(inflate(&w.bytes), Err(DecompressorError::InvalidDynamicTableDescription));
}

#[test]
fn oversubscribed_code_length_code_is_an_invalid_description() {
    let mut w = writer();
    put_bit(&mut w, true);
    put_field(&mut w, 2, 2);
    put_field(&mut w, 0, 5);
    put_field(&mut w, 0, 5);
    put_field(&mut w, 0, 4);
    // three symbols of one bit each
    put_field(&mut w, 1, 3);
    put_field(&mut w, 1, 3);
    put_field(&mut w, 1, 3);
    put_field(&mut w, 0, 3);
    put_field(&mut w, 0, 32);
    assert_eq!(inflate(&w.bytes), Err(DecompressorError::InvalidDynamicTableDescription));
}

#[test]
fn dynamic_block_built_by_hand_decodes() {
    // code-length code: symbols 0, 1, 2, 18 with two bits each
    // literal/length code: 'a' (97) one bit, 'b' (98) two bits, end of block two bits
    // distance code: one symbol, not used
    let mut w = writer();
    put_bit(&mut w, true);
    put_field(&mut w, 2, 2);
    put_field(&mut w, 0, 5);
    put_field(&mut w, 0, 5);
    put_field(&mut w, 14, 4);
    // 18 fields, in the order 16 17 18 0 8 7 9 6 10 5 11 4 12 3 13 2 14 1
    let fields = [0, 0, 2, 2, 0, 0, 0, 0, 0, 0, 0, 0, 0, 0, 0, 2, 0, 2];
    for field in fields {
        put_field(&mut w, field, 3);
    }
    // canonical words: 0 -> 00, 1 -> 01, 2 -> 10, 18 -> 11
    // 97 zeros: 18 with 86 (97 = 11 + 86)
    put_word(&mut w, 3, 2);
    put_field(&mut w, 86, 7);
    // 'a': length 1; 'b': length 2
    put_word(&mut w, 1, 2);
    put_word(&mut w, 2, 2);
    // 157 zeros for 99..=255: 138 + 19
    put_word(&mut w, 3, 2);
    put_field(&mut w, 127, 7);
    put_word(&mut w, 3, 2);
    put_field(&mut w, 8, 7);
    // symbol 256: length 2
    put_word(&mut w, 2, 2);
    // one distance length: 0
    put_word(&mut w, 0, 2);
    // the block: a b a a b, end; words: 'a' -> 0, 'b' -> 10, end -> 11
    put_word(&mut w, 0, 1);
    put_word(&mut w, 2, 2);
    put_word(&mut w, 0, 1);
    put_word(&mut w, 0, 1);
    put_word(&mut w, 2, 2);
    put_word(&mut w, 3, 2);
    assert_eq!(inflate(&w.bytes), Ok(b"abaab".to_vec()));
}

#[test]
fn reference_encoder_fixed_block_round_trips() {
    assert_eq!(inflate(&vector_fixed()), Ok(b"hello hello hello hello".to_vec()));
}

#[test]
fn reference_encoder_dynamic_block_round_trips() {
    assert_eq!(inflate(&vector_dynamic()), Ok(word_salad()));
}

#[test]
fn reference_encoder_stored_block_round_trips() {
    assert_eq!(inflate(&vector_stored()), Ok(b"stored bytes stay as they are".to_vec()));
}

#[test]
fn reference_encoder_long_stream_round_trips() {
    assert_eq!(inflate(&vector_long()), Ok(periodic_noise()));
}

#[test]
fn reference_encoder_stream_of_several_blocks_round_trips() {
    assert_eq!(
        inflate(&vector_blocks()),
        Ok(b"first block, second block, third block.".to_vec())
    );
}

#[test]
fn pieces_of_a_pull_by_pull_decode_join_to_the_whole() {
    let pieces = pull_all(&vector_dynamic()).unwrap();
    let joined: Vec<u8> = pieces.concat();
    assert_eq!(joined, word_salad());
    let nonempty = pieces.iter().filter(|p| !p.is_empty()).count();
    assert!(nonempty + 1 >= pieces.len());
}

#[test]
fn every_cut_of_a_stream_ends_in_end_of_input() {
    let whole = vector_fixed();
    for cut in 0..whole.len() {
        assert_eq!(inflate(&whole[..cut]), Err(DecompressorError::UnexpectedEndOfInput));
    }
    let whole = vector_dynamic();
    for cut in 0..whole.len() {
        assert_eq!(inflate(&whole[..cut]), Err(DecompressorError::UnexpectedEndOfInput));
    }
}

#[test]
fn same_input_decodes_alike_in_two_decoders() {
    let stream = vector_dynamic();
    let first = inflate(&stream);
    let second = inflate(&stream);
    assert_eq!(first, second);
    assert_eq!(pull_all(&stream), pull_all(&stream));
    let broken = [0x07u8];
    assert_eq!(inflate(&broken), inflate(&broken));
}

#[test]
fn bytes_after_the_last_block_are_not_read() {
    let mut stream = vector_fixed();
    stream.extend_from_slice(&[0xff, 0xff, 0xff]);
    assert_eq!(inflate(&stream), Ok(b"hello hello hello hello".to_vec()));
}

/// `data` as one stored block, the last of its stream.
fn stored_stream(data: &[u8]) -> Vec<u8> {
    let len = data.len();
    let mut stream = vec![
        1u8,
        (len % 256) as u8,
        (len / 256) as u8,
        ((65535 - len) % 256) as u8,
        ((65535 - len) / 256) as u8,
    ];
    stream.extend_from_slice(data);
    stream
}

#[test]
fn what_is_stored_comes_back() {
    assert_eq!(inflate(&stored_stream(&[])), Ok(Vec::new()));
    assert_eq!(inflate(&stored_stream(b"x")), Ok(b"x".to_vec()));
    let all_bytes: Vec<u8> = (0..=255u8).collect();
    assert_eq!(inflate(&stored_stream(&all_bytes)), Ok(all_bytes));
    let longest: Vec<u8> = (0..65535u32).map(|i| (i * 31 % 256) as u8).collect();
    assert_eq!(inflate(&stored_stream(&longest)), Ok(longest));
}

/// `data` as one block of literals in the fixed code, the last of its stream.
fn literal_stream(data: &[u8]) -> Vec<u8> {
    let mut w = writer();
    put_bit(&mut w, true);
    put_field(&mut w, 1, 2);
    for &byte in data {
        put_fixed_symbol(&mut w, byte as u32);
    }
    put_fixed_symbol(&mut w, 256);
    w.bytes
}

#[test]
fn what_is_written_in_the_fixed_code_comes_back() {
    assert_eq!(inflate(&literal_stream(&[])), Ok(Vec::new()));
    assert_eq!(inflate(&literal_stream(b"A")), Ok(b"A".to_vec()));
    let all_bytes: Vec<u8> = (0..=255u8).collect();
    assert_eq!(inflate(&literal_stream(&all_bytes)), Ok(all_bytes));
    let long: Vec<u8> = (0..40000u32).map(|i| (i * 37 % 256) as u8).collect();
    assert_eq!(inflate(&literal_stream(&long)), Ok(long));
}
