use audioserve::gzip_stream::{GzipFramer, GzipPhase};
use std::io::Read;

fn compress_in_chunks(data: &[u8], chunk_size: usize, read_size: usize) -> Vec<Vec<u8>> {
    let mut framer = GzipFramer::new_with_chunk_size(chunk_size);
    let mut chunks = Vec::new();
    let mut pos = 0;
    loop {
        match framer.phase() {
            GzipPhase::Reading => {
                let n = read_size.min(framer.input_space()).min(data.len() - pos);
                let piece = &data[pos..pos + n];
                pos += n;
                if let Some(c) = framer.on_read(piece).unwrap() {
                    chunks.push(c);
                }
            }
            GzipPhase::Dumping => {
                if let Some(c) = framer.dump().unwrap() {
                    chunks.push(c);
                }
            }
            GzipPhase::Footer => {
                if let Some(c) = framer.footer_chunk() {
                    chunks.push(c);
                }
            }
            GzipPhase::Done => break,
        }
    }
    chunks
}

fn gunzip(bytes: &[u8]) -> Vec<u8> {
    let mut dec = flate2::read::GzDecoder::new(bytes);
    let mut out = Vec::new();
    dec.read_to_end(&mut out).unwrap();
    out
}

#[test]
fn gzip_stream_round_trip() {
    let data: Vec<u8> = (0..20_000u32).map(|i| ((i * 7919) % 251) as u8).collect();
    for chunk_size in [10usize, 101, 1024, 10_000, 100_000] {
        for read_size in [1usize, 333, 50_000] {
            let chunks = compress_in_chunks(&data, chunk_size, read_size);
            assert!(chunks.iter().all(|c| c.len() <= chunk_size));
            let all: Vec<u8> = chunks.concat();
            assert_eq!(&all[0..4], &[0x1f, 0x8b, 8, 0]);
            assert_eq!(all[8], 0);
            assert_eq!(all[9], 255);
            let n = all.len();
            assert_eq!(&all[n - 4..], &(data.len() as u32).to_le_bytes());
            assert_eq!(gunzip(&all), data);
        }
    }
}

#[test]
fn gzip_stream_of_nothing() {
    let chunks = compress_in_chunks(&[], 64, 10);
    let all: Vec<u8> = chunks.concat();
    assert_eq!(&all[all.len() - 8..], &[0u8; 8]);
    assert_eq!(gunzip(&all), Vec::<u8>::new());
}

#[test]
fn gzip_stream_failed_input_ends() {
    let mut framer = GzipFramer::new_with_chunk_size(32);
    framer.fail();
    assert_eq!(framer.phase(), GzipPhase::Done);
}
