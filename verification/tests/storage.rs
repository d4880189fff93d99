use brindle::distance::Kernel;
use brindle::filter::AttrValue;
use brindle::hnsw::{Hnsw, HnswParams};
use brindle::index_am::payload::encode_index_payload;
use brindle::index_am::storage::{
    contents_end, decode_index_payload, decode_meta, encode_index, encode_meta, load_index,
    needs_wal, page_chunk_capacity, read_meta, used_bytes, write_target, CorruptPage, Fork, Image,
    LoadError, MetaError, PayloadError, TidPair, FIRST_GENERATION, META_MAGIC,
};
use brindle::index_am::stored::{Index, Unranked};

const PAGE_SIZE: u16 = 8192;
const PAGE_CHUNK_CAPACITY: usize = 8168;

/// A fork of ordinary pages.
fn shape(nblocks: u32) -> Fork {
    Fork {
        nblocks,
        page_size: PAGE_SIZE,
    }
}

/// The distance kernels, on `f32` bits.
fn kernel(which: Kernel, a: &[u32], b: &[u32]) -> u32 {
    let pairs = || {
        a.iter()
            .zip(b)
            .map(|(x, y)| (f32::from_bits(*x), f32::from_bits(*y)))
    };
    let r = match which {
        Kernel::L2Squared => {
            let mut acc = 0.0f32;
            for (x, y) in pairs() {
                let d = x - y;
                acc += d * d;
            }
            acc
        }
        Kernel::Dot => pairs().map(|(x, y)| x * y).sum(),
        Kernel::Norms | Kernel::Cosine => {
            let (mut dot, mut norm_a, mut norm_b) = (0.0f32, 0.0f32, 0.0f32);
            for (x, y) in pairs() {
                dot += x * y;
                norm_a += x * x;
                norm_b += y * y;
            }
            let norms = norm_a.sqrt() * norm_b.sqrt();
            if which == Kernel::Norms {
                norms
            } else {
                1.0 - dot / norms
            }
        }
    };
    r.to_bits()
}

fn bits(v: &[f32]) -> Vec<u32> {
    v.iter().map(|x| x.to_bits()).collect()
}

fn level(draw: u64, m: usize) -> usize {
    let mut r = draw as f64 / (1u64 << 53) as f64;
    if r <= 0.0 {
        r = f64::MIN_POSITIVE;
    }
    (-r.ln() * (1.0 / (m as f64).ln())).floor() as usize
}

#[test]
fn payload_round_trip() {
    let graph = vec![7u8; 1000];
    let tids: Vec<TidPair> = (0..50)
        .map(|i| (i as u32 * 3, (i % 7) as u16 + 1))
        .collect();
    let blob = encode_index_payload(&graph, &tids);
    let (graph2, tids2) = decode_index_payload(&blob).expect("decode");
    assert_eq!(graph2, &graph[..]);
    assert_eq!(tids2, tids);
}

#[test]
fn encode_index_matches_byte_framing() {

    let mut hnsw = Hnsw::new(HnswParams::default());
    let mut rng = 0x51EDu64;
    for _ in 0..64 {
        let v: Vec<f32> = (0..8)
            .map(|_| {
                rng = rng.wrapping_mul(6364136223846793005).wrapping_add(1);
                (rng >> 33) as f32 / u32::MAX as f32
            })
            .collect();
        hnsw.insert(&kernel, &level, bits(&v)).unwrap();
    }
    let tids: Vec<TidPair> = (0..hnsw.len()).map(|i| (i as u32, i as u16 + 1)).collect();

    let streamed = encode_index(&hnsw, &tids);
    let framed = encode_index_payload(&hnsw.to_bytes(), &tids);
    assert_eq!(streamed, framed);

    let (graph_bytes, tids2) = decode_index_payload(&streamed).expect("decode");
    assert_eq!(Hnsw::from_bytes(graph_bytes).ok().unwrap().len(), hnsw.len());
    assert_eq!(tids2, tids);
}

#[test]
fn encode_index_empty_graph() {

    let hnsw = Hnsw::new(HnswParams::default());
    let blob = encode_index(&hnsw, &[]);
    let (graph_bytes, tids) = decode_index_payload(&blob).expect("decode");
    assert!(tids.is_empty());
    assert!(Hnsw::from_bytes(graph_bytes).ok().unwrap().is_empty());
}

#[test]
fn payload_round_trip_empty() {
    let blob = encode_index_payload(&[], &[]);
    let (graph, tids) = decode_index_payload(&blob).expect("decode");
    assert!(graph.is_empty());
    assert!(tids.is_empty());
}

#[test]
fn payload_rejects_any_truncation() {
    let blob = encode_index_payload(&[1, 2, 3], &[(9, 1), (10, 2)]);
    for cut in 0..blob.len() {
        assert!(
            decode_index_payload(&blob[..cut]).is_err(),
            "prefix of {cut} bytes decoded successfully"
        );
    }
}

#[test]
fn payload_rejects_trailing_bytes() {
    let mut blob = encode_index_payload(&[1, 2, 3], &[(9, 1)]);
    blob.push(0);
    assert_eq!(
        decode_index_payload(&blob),
        Err(PayloadError::TrailingBytes)
    );
}

fn sample(rows: usize) -> (Hnsw, Vec<TidPair>) {
    let mut hnsw = Hnsw::new(HnswParams::default());
    let mut tids = Vec::new();
    for i in 0..rows {
        let v = [(i % 17) as f32, ((i * 7) % 13) as f32, (i % 5) as f32];
        hnsw.insert(&kernel, &level, bits(&v)).unwrap();
        tids.push((i as u32 / 40, (i % 40) as u16 + 1));
    }
    (hnsw, tids)
}

/// Write an image over a fork, block by block.
fn write(fork: &mut Vec<Vec<u8>>, image: &Image) {
    let existing = fork.len() as u32;
    for blkno in 0..image.blocks(existing) as u32 {
        let contents = image.page(blkno).to_vec();
        assert!(contents_end(contents.len(), PAGE_SIZE).is_some());
        match write_target(blkno, existing) {
            Some(at) => fork[at as usize] = contents,
            None => fork.push(contents),
        }
    }
}

/// An image in which every row has a vector.
fn image(payload: &[u8]) -> Vec<u8> {
    let mut blob = vec![0; 8];
    blob.extend(payload);
    blob
}

fn load(fork: &[Vec<u8>]) -> Result<(Hnsw, Vec<TidPair>), LoadError> {
    let fetch = |blkno: u32| -> Vec<u8> { fork[blkno as usize].clone() };
    let index = load_index(shape(fork.len() as u32), &fetch)?;
    Ok((index.hnsw, index.tids))
}

#[test]
fn a_stored_index_loads_back() {
    let (hnsw, tids) = sample(600);
    let blob = image(&encode_index(&hnsw, &tids));
    assert!(blob.len() > 3 * PAGE_CHUNK_CAPACITY);
    let mut fork = Vec::new();
    write(&mut fork, &Image::first(&blob, PAGE_SIZE));
    assert_eq!(fork.len(), 1 + blob.len().div_ceil(PAGE_CHUNK_CAPACITY));
    let (back, addresses) = load(&fork).ok().unwrap();
    assert_eq!(back.to_bytes(), hnsw.to_bytes());
    assert_eq!(addresses, tids);
    let (len, generation) = read_meta(shape(fork.len() as u32), &fork[0]).unwrap();
    assert_eq!((len, generation), (blob.len(), FIRST_GENERATION));
}

#[test]
fn a_smaller_image_leaves_nothing_of_a_larger_one() {
    let (large, large_tids) = sample(600);
    let (small, small_tids) = sample(20);
    let mut fork = Vec::new();
    let blob = image(&encode_index(&large, &large_tids));
    write(&mut fork, &Image::first(&blob, PAGE_SIZE));
    let blocks = fork.len();
    let blob = image(&encode_index(&small, &small_tids));
    write(&mut fork, &Image::next(&blob, FIRST_GENERATION, PAGE_SIZE));
    assert_eq!(fork.len(), blocks);
    assert!(fork[2..].iter().all(|page| page.is_empty()));
    let (back, addresses) = load(&fork).ok().unwrap();
    assert_eq!(back.to_bytes(), small.to_bytes());
    assert_eq!(addresses, small_tids);
    assert_eq!(read_meta(shape(blocks as u32), &fork[0]).unwrap().1, 2);
    write(&mut fork, &Image::next(&blob, u64::MAX, PAGE_SIZE));
    assert_eq!(read_meta(shape(blocks as u32), &fork[0]).unwrap().1, 0);
}

#[test]
fn stale_tail_pages_are_never_read() {
    let (small, small_tids) = sample(20);
    let blob = image(&encode_index(&small, &small_tids));
    let mut fork = Vec::new();
    write(&mut fork, &Image::first(&blob, PAGE_SIZE));
    fork.push(vec![0xAA; 100]);
    let (back, addresses) = load(&fork).ok().unwrap();
    assert_eq!(back.len(), 20);
    assert_eq!(addresses, small_tids);
}

#[test]
fn metapages_hold_what_was_put_there() {
    let meta = encode_meta(1234, 5);
    assert_eq!(meta.len(), 24);
    assert_eq!(decode_meta(&meta), (META_MAGIC, 3, 1234, 5));
    assert_eq!(read_meta(shape(2), &meta), Ok((1234, 5)));
}

#[test]
fn metapage_faults_come_in_order() {
    let meta = encode_meta(1234, 5);
    assert_eq!(read_meta(shape(0), &meta), Err(MetaError::NoPages));
    assert_eq!(read_meta(shape(2), &meta[..7]), Err(MetaError::TooShort { len: 7 }));
    let mut bad = meta.clone();
    bad[0] = 0;
    assert_eq!(
        read_meta(shape(2), &bad),
        Err(MetaError::BadMagic { magic: 0x4252_4E00 })
    );
    let mut old = meta[..16].to_vec();
    old[4] = 1;
    assert_eq!(
        read_meta(shape(2), &old),
        Err(MetaError::WrongVersion { version: 1 })
    );
    assert_eq!(
        read_meta(shape(2), &meta[..23]),
        Err(MetaError::TooShort { len: 23 })
    );
    assert_eq!(
        read_meta(shape(1), &meta),
        Err(MetaError::TooLong {
            len: 1234,
            nblocks: 1
        })
    );
    let full = encode_meta(PAGE_CHUNK_CAPACITY as u64, 5);
    assert_eq!(read_meta(shape(2), &full), Ok((PAGE_CHUNK_CAPACITY, 5)));
}

#[test]
fn metapage_faults_explain_themselves() {
    assert_eq!(
        MetaError::NoPages.message(),
        "index has no pages (never built?)"
    );
    assert_eq!(
        MetaError::TooShort { len: 7 }.message(),
        "metapage too short (7 bytes)"
    );
    assert_eq!(
        MetaError::BadMagic { magic: 0x00ab_c109 }.message(),
        "bad metapage magic 0xabc109"
    );
    assert_eq!(
        MetaError::WrongVersion { version: 1 }.message(),
        "index was written in storage format 1, this build reads 3; REINDEX to rebuild it"
    );
    assert_eq!(
        MetaError::LengthOutOfRange.message(),
        "metapage blob length out of range"
    );
    assert_eq!(
        MetaError::TooLong {
            len: 9000,
            nblocks: 2
        }
        .message(),
        "metapage declares 9000 blob bytes but the index has 2 pages"
    );
}

#[test]
fn pages_end_inside_their_block() {
    assert_eq!(used_bytes(3, 24, PAGE_SIZE), Ok(0));
    assert_eq!(used_bytes(3, 8192, PAGE_SIZE), Ok(PAGE_CHUNK_CAPACITY));
    let fault = CorruptPage {
        blkno: 3,
        pd_lower: 23,
    };
    assert_eq!(used_bytes(3, 23, PAGE_SIZE), Err(fault));
    assert_eq!(fault.message(), "corrupted index page 3 (pd_lower 23)");
    assert!(used_bytes(3, 8193, PAGE_SIZE).is_err());
    assert_eq!(contents_end(0, PAGE_SIZE), Some(24));
    assert_eq!(contents_end(PAGE_CHUNK_CAPACITY, PAGE_SIZE), Some(8192));
    assert_eq!(contents_end(PAGE_CHUNK_CAPACITY + 1, PAGE_SIZE), None);
}

#[test]
fn loading_reports_what_is_wrong() {
    let (hnsw, tids) = sample(5);
    let mut fork = Vec::new();
    let blob = image(&encode_index(&hnsw, &tids[..4]));
    write(&mut fork, &Image::first(&blob, PAGE_SIZE));
    let err = load(&fork).err().unwrap();
    assert_eq!(
        err,
        LoadError::OutOfStep {
            nodes: 5,
            pointers: 4
        }
    );
    assert_eq!(
        err.message(),
        "corrupted index: 5 graph nodes but 4 heap pointers"
    );
    assert_eq!(
        load(&[]).err().unwrap(),
        LoadError::Meta(MetaError::NoPages)
    );

    let blob = image(&encode_index(&hnsw, &tids));
    let mut fork = Vec::new();
    write(&mut fork, &Image::first(&blob, PAGE_SIZE));
    fork[1].truncate(60);
    assert!(matches!(load(&fork).err().unwrap(), LoadError::Graph(_)));
    fork[1].truncate(12);
    assert_eq!(
        load(&fork).err().unwrap(),
        LoadError::Payload(PayloadError::Truncated)
    );
    fork[1].truncate(4);
    let err = load(&fork).err().unwrap();
    assert_eq!(err, LoadError::Unranked);
    assert_eq!(
        err.message(),
        "corrupted index: bad table of rows without a vector"
    );
    let framed = image(&encode_index_payload(&[1, 2, 3], &tids));
    let mut fork = Vec::new();
    write(&mut fork, &Image::first(&framed, PAGE_SIZE));
    assert!(matches!(load(&fork).err().unwrap(), LoadError::Graph(_)));
}

#[test]
fn prefixes_of_a_payload_are_truncations() {
    let blob = encode_index_payload(&[1, 2, 3], &[(9, 1), (10, 2)]);
    for cut in 0..blob.len() {
        assert_eq!(
            decode_index_payload(&blob[..cut]),
            Err(PayloadError::Truncated)
        );
    }
}

#[test]
fn rows_without_a_vector_are_stored_and_loaded() {
    let (hnsw, tids) = sample(20);
    let rows = [
        ((7, 1), vec![]),
        (
            (u32::MAX, u16::MAX),
            vec![
                AttrValue::Null,
                AttrValue::Int(-5),
                AttrValue::Float(1.5f64.to_bits()),
            ],
        ),
    ];
    let index = Index {
        hnsw,
        tids,
        unranked: rows
            .iter()
            .map(|(tid, attrs)| Unranked {
                tid: *tid,
                attrs: attrs.clone(),
            })
            .collect(),
    };
    let blob = index.image();
    assert_eq!(blob[..8], 2u64.to_le_bytes());
    assert_eq!(blob[8..22], [7, 0, 0, 0, 1, 0, 0, 0, 0, 0, 0, 0, 0, 0]);
    let at = 22 + 6 + 8 + 1 + 9 + 9;
    assert_eq!(blob[at..], encode_index(&index.hnsw, &index.tids));
    let image = Image::first(&blob, PAGE_SIZE);
    let fetch = |blkno: u32| -> Vec<u8> { image.page(blkno).to_vec() };
    let back = load_index(shape(image.blocks(0) as u32), &fetch).ok().unwrap();
    assert_eq!(back.hnsw.to_bytes(), index.hnsw.to_bytes());
    assert_eq!(back.tids, index.tids);
    let got: Vec<(TidPair, Vec<AttrValue>)> = back
        .unranked
        .into_iter()
        .map(|row| (row.tid, row.attrs))
        .collect();
    assert_eq!(got, rows);
}

#[test]
fn payload_errors_explain_themselves() {
    assert_eq!(
        PayloadError::Truncated.message(),
        "index payload is truncated"
    );
    assert_eq!(
        PayloadError::TrailingBytes.message(),
        "index payload has trailing bytes"
    );
}

#[test]
fn only_permanent_and_init_forks_are_logged() {
    assert!(needs_wal(true, false));
    assert!(needs_wal(false, true));
    assert!(!needs_wal(false, false));
}

#[test]
fn every_page_size_stores_and_loads() {
    let (hnsw, tids) = sample(60);
    let blob = image(&encode_index(&hnsw, &tids));
    for page_size in [1024u16, 4096, 8192, 32768] {
        let capacity = page_chunk_capacity(page_size);
        assert_eq!(capacity, page_size as usize - 24);
        let image = Image::first(&blob, page_size);
        let blocks = image.blocks(0) as u32;
        assert_eq!(blocks as usize, 1 + blob.len().div_ceil(capacity));
        let fetch = |blkno: u32| -> Vec<u8> { image.page(blkno).to_vec() };
        let fork = Fork {
            nblocks: blocks,
            page_size,
        };
        let index = load_index(fork, &fetch).ok().unwrap();
        assert_eq!(index.hnsw.to_bytes(), hnsw.to_bytes());
        assert_eq!(index.tids, tids);
        assert!(used_bytes(1, page_size, page_size).is_ok());
        assert!(used_bytes(1, page_size + 1, page_size).is_err());
    }
    let meta = encode_meta(5000, 1);
    let small = Fork {
        nblocks: 2,
        page_size: 1024,
    };
    assert_eq!(
        read_meta(small, &meta),
        Err(MetaError::TooLong {
            len: 5000,
            nblocks: 2
        })
    );
    assert_eq!(read_meta(shape(2), &meta), Ok((5000, 1)));
}
