use simple_tsdb::bitio::{BitReader, BitWriter};
use simple_tsdb::block::TimeSeriesBlock;
use simple_tsdb::error::Error;
use simple_tsdb::gorilla::{GorillaDecoder, GorillaEncoder};

fn bits(x: f64) -> u64 {
    x.to_bits()
}

#[test]
fn test_gorilla_compression() {
    let mut block = TimeSeriesBlock::new();
    for i in 0..100u64 {
        let ts = 1000 + i * 60;
        let val = 100.0 + (i as f64 % 10.0);
        block.add_point(ts, bits(val));
    }

    let compressed = block.compress();
    let raw_size = block.len() * 16;
    let compressed_size = compressed.len();
    println!("size before: {} bytes", raw_size);
    println!("size after: {} bytes", compressed_size);

    let decompressed = TimeSeriesBlock::decompress(&compressed).unwrap();
    assert_eq!(block.len(), decompressed.len());
    for (i, (&(orig_ts, orig_val), &(dec_ts, dec_val))) in
        block.get_points().iter().zip(decompressed.get_points().iter()).enumerate()
    {
        assert_eq!(orig_ts, dec_ts, "timestamp differs at point {}", i);
        assert_eq!(f64::from_bits(orig_val), f64::from_bits(dec_val), "value differs at point {}", i);
    }
}

#[test]
fn test_query() {
    let mut block = TimeSeriesBlock::new();
    for i in 0..100u64 {
        block.add_point(1000 + i * 10, bits(i as f64));
    }
    let result = block.query(1200, 1400);
    assert_eq!(result.len(), 21);
    assert_eq!(result[0].0, 1200);
    assert_eq!(f64::from_bits(result[0].1), 20.0);
    assert_eq!(result[20].0, 1400);
    assert_eq!(f64::from_bits(result[20].1), 40.0);
}

#[test]
fn regular_series_compresses_below_raw_size() {
    let mut block = TimeSeriesBlock::new();
    for i in 0..100u64 {
        block.add_point(1000 + 60 * i, bits(100.0 + (i % 10) as f64));
    }
    let compressed = block.compress();
    assert!(compressed.len() < 100 * 16);
    let back = TimeSeriesBlock::decompress(&compressed).unwrap();
    assert_eq!(back.get_points(), block.get_points());
}

#[test]
fn round_trip_keeps_nan_bits_and_irregular_times() {
    let values = [
        (5u64, 0x7ff8_0000_0000_0001u64),
        (5, 0xfff0_0000_0000_0000),
        (7, 0x0000_0000_0000_0001),
        (20, 0x8000_0000_0000_0000),
        (3000, 0x3ff0_0000_0000_0000),
        (3001, 0x3ff0_0000_0000_0001),
        (1 << 30, 0xffff_ffff_ffff_ffff),
    ];
    let mut enc = GorillaEncoder::new(Vec::new());
    for &(t, v) in values.iter() {
        enc.encode(t, v);
    }
    let bytes = enc.close();
    let mut dec = GorillaDecoder::new(&bytes).unwrap();
    for &(t, v) in values.iter() {
        assert_eq!(dec.decode().unwrap(), Some((t, v)));
    }
}

#[test]
fn block_sorts_stably_and_keeps_repeated_timestamps() {
    let mut block = TimeSeriesBlock::new();
    block.add_point(10, bits(1.0));
    block.add_point(5, bits(2.0));
    block.add_point(10, bits(3.0));
    let bytes = block.compress();
    assert_eq!(&bytes[0..4], &3u32.to_le_bytes());
    let back = TimeSeriesBlock::decompress(&bytes).unwrap();
    assert_eq!(back.get_points(), &vec![(5, bits(2.0)), (10, bits(1.0)), (10, bits(3.0))]);
}

#[test]
fn two_points_at_one_timestamp_both_come_back() {
    let mut block = TimeSeriesBlock::new();
    block.add_point(5, 1);
    block.add_point(5, 2);
    let back = TimeSeriesBlock::decompress(&block.compress()).unwrap();
    assert_eq!(back.get_points(), &vec![(5, 1), (5, 2)]);
}

#[test]
fn empty_block_round_trips() {
    let block = TimeSeriesBlock::new();
    let bytes = block.compress();
    assert_eq!(bytes, vec![0, 0, 0, 0]);
    let back = TimeSeriesBlock::decompress(&bytes).unwrap();
    assert!(back.is_empty());
}

#[test]
fn short_block_is_a_data_error() {
    assert!(matches!(TimeSeriesBlock::decompress(&[1, 0]), Err(Error::DataError(_))));
}

#[test]
fn block_with_fewer_points_than_count_is_an_error() {
    let mut block = TimeSeriesBlock::new();
    block.add_point(1, bits(1.0));
    let mut bytes = block.compress();
    bytes[0] = 5;
    assert!(TimeSeriesBlock::decompress(&bytes).is_err());
}

#[test]
fn bit_patterns_round_trip() {
    let pattern: [(u64, u8); 7] = [
        (1, 1),
        (0b1011, 4),
        (0xdead_beef, 32),
        (0, 3),
        (u64::MAX, 64),
        (0x55, 7),
        (0x1234_5678_9abc_def0, 64),
    ];
    let mut w = BitWriter::new(Vec::new());
    for &(v, n) in pattern.iter() {
        w.write_bits(v, n);
    }
    w.flush();
    let bytes = w.into_inner();
    let mut r = BitReader::new(&bytes);
    for &(v, n) in pattern.iter() {
        let mask = if n == 64 { u64::MAX } else { (1u64 << n) - 1 };
        assert_eq!(r.read_bits(n), Some(v & mask));
    }
}

#[test]
fn bit_writer_orders_bits_least_significant_first() {
    let mut w = BitWriter::new(Vec::new());
    w.write_bits(1, 1);
    w.write_bits(0, 1);
    w.write_bits(1, 1);
    w.flush();
    assert_eq!(w.get_ref(), &vec![0b101]);
}

#[test]
fn bit_reader_returns_partial_bits_then_end() {
    let data = [0xffu8];
    let mut r = BitReader::new(&data);
    assert_eq!(r.read_bits(5), Some(0b11111));
    assert_eq!(r.read_bits(8), Some(0b111));
    assert_eq!(r.read_bits(1), None);
    assert_eq!(r.read_bit(), None);
}

#[test]
fn decoder_on_empty_stream_fails() {
    assert!(GorillaDecoder::new(&[]).is_err());
}

#[test]
fn decode_all_reads_a_whole_stream() {
    let mut enc = GorillaEncoder::new(Vec::new());
    enc.encode(42, bits(1.5));
    let bytes = enc.close();
    assert_eq!(bytes.len(), 16);
    let dec = GorillaDecoder::new(&bytes).unwrap();
    assert_eq!(dec.decode_all().unwrap(), vec![(42, bits(1.5))]);
}

#[test]
fn decompress_of_zero_count_ignores_trailing_bytes() {
    let back = TimeSeriesBlock::decompress(&[0, 0, 0, 0, 7]).unwrap();
    assert!(back.is_empty());
}

#[test]
fn boundary_delta_of_deltas_round_trip() {
    let mut block = TimeSeriesBlock::new();
    for &t in [100u64, 110, 184, 194, 460, 470, 2528].iter() {
        block.add_point(t, bits(t as f64));
    }
    let back = TimeSeriesBlock::decompress(&block.compress()).unwrap();
    assert_eq!(back.get_points(), block.get_points());
}

#[test]
fn decode_all_gives_the_points_first_on_a_padded_stream() {
    let pts = [(10u64, bits(1.0)), (20, bits(2.0)), (30, bits(2.0)), (45, bits(7.5))];
    let mut enc = GorillaEncoder::new(Vec::new());
    for &(t, v) in pts.iter() {
        enc.encode(t, v);
    }
    let bytes = enc.close();
    let out = GorillaDecoder::new(&bytes).unwrap().decode_all().unwrap();
    assert!(out.len() >= pts.len());
    assert_eq!(&out[..pts.len()], &pts[..]);
}
