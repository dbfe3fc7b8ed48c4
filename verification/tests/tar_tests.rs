use audioserve::tar::{
    calc_size, cut_path, file_header, file_header_at, finish_block, TarBody, TarWriter, BUFFER_LENGTH, FILE_MODE,
};

#[test]
fn test_cut_path() {
    let a = "abcdef";
    let x = cut_path(a, 10);
    assert_eq!(a, x, "under limit");

    let a = "0123456789abcd";
    let x = cut_path(a, 10);
    assert_eq!("0123456789", x, "over limit, no ext");

    let a = "0123456789abcd.mp3";
    let x = cut_path(a, 10);
    assert_eq!("012345.mp3", x, "over limit, no ext");
}

#[test]
fn tar_sizes() {
    assert_eq!(calc_size(&[]), 1024);
    assert_eq!(calc_size(&[0]), 1024 + 512);
    assert_eq!(calc_size(&[1]), 1024 + 1024);
    assert_eq!(calc_size(&[512, 513]), 1024 + 1024 + 1536);
}

#[test]
fn tar_body_blocks() {
    let mut body = TarBody::new();
    assert_eq!(body.space(), BUFFER_LENGTH);
    assert!(body.on_data(&[1, 2, 3]).is_none());
    let last = body.on_eof().unwrap();
    assert_eq!(last.len(), 512);
    assert_eq!(&last[..4], &[1, 2, 3, 0]);
    assert!(body.on_eof().is_none());
    let big = vec![7u8; BUFFER_LENGTH];
    let full = body.on_data(&big).unwrap();
    assert_eq!(full.len(), BUFFER_LENGTH);
    assert!(body.on_data(&[9; 512]).is_none());
    assert_eq!(body.on_eof().unwrap().len(), 512);
    assert_eq!(finish_block(0).unwrap(), vec![0u8; 512]);
    assert!(finish_block(2).is_none());
}

fn tar_crate_header(name: &str, size: u64, mtime: u64) -> Vec<u8> {
    let mut h = tar::Header::new_gnu();
    h.set_path(name).unwrap();
    h.set_size(size);
    h.set_mode(0o644);
    h.set_mtime(mtime);
    h.set_cksum();
    h.as_bytes().to_vec()
}

#[test]
fn file_headers() {
    assert_eq!(FILE_MODE, 0o644);
    let h = file_header_at("some/dir/song.mp3", 1234, 1_600_000_000).unwrap();
    assert_eq!(h.len(), 512);
    assert_eq!(h, tar_crate_header("song.mp3", 1234, 1_600_000_000));
    assert_eq!(&h[0..8], b"song.mp3");
    assert_eq!(h[8], 0);

    let long = format!("{}.mp3", "a".repeat(150));
    let h = file_header_at(&long, 10, 0).unwrap();
    let cut = format!("{}.mp3", "a".repeat(96));
    assert_eq!(h, tar_crate_header(&cut, 10, 0));

    assert_eq!(file_header_at("..", 10, 0), None);
    assert_eq!(file_header_at("/", 10, 0), None);

    let h = file_header("x/track.opus", 99).unwrap();
    assert_eq!(h.len(), 512);
    assert_eq!(&h[0..10], b"track.opus");
}

#[test]
fn tar_body_sends_data_padded_to_blocks() {
    let mut body = TarBody::new();
    let a: Vec<u8> = (0..300u32).map(|i| (i % 251) as u8 + 1).collect();
    let b: Vec<u8> = (0..400u32).map(|i| (i % 13) as u8 + 1).collect();
    assert!(body.on_data(&a).is_none());
    assert!(body.on_data(&b).is_none());
    let chunk = body.on_eof().expect("data waiting");
    assert_eq!(chunk.len(), 1024);
    assert_eq!(&chunk[..300], &a[..]);
    assert_eq!(&chunk[300..700], &b[..]);
    assert!(chunk[700..].iter().all(|x| *x == 0));
    assert!(body.on_eof().is_none());
}

#[test]
fn tar_writer_whole_archive() {
    let mut w = TarWriter::new();
    let mut out: Vec<u8> = Vec::new();
    let data: Vec<u8> = (0..700u32).map(|i| (i % 7) as u8 + 1).collect();
    out.extend(w.start_file("dir/a.mp3", 700).expect("header"));
    if let Some(c) = w.on_data(&data) {
        out.extend(c);
    }
    if let Some(c) = w.end_file() {
        out.extend(c);
    }
    out.extend(w.start_file("b.txt", 0).expect("header"));
    assert!(w.end_file().is_none());
    while let Some(c) = w.trailer_block() {
        out.extend(c);
    }
    assert_eq!(out.len() as u64, calc_size(&[700, 0]));
    assert_eq!(&out[512..1212], &data[..]);
    assert!(out[1212..1536].iter().all(|x| *x == 0));
    assert!(out[out.len() - 1024..].iter().all(|x| *x == 0));
}
