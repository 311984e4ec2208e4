use diffvibe::chunks::{ChunkType, MergeChunk};
use diffvibe::merge::{make_base_chunk, make_insertion_chunk, push_chunk};

fn lines(v: &[&str]) -> Vec<String> {
    v.iter().map(|s| s.to_string()).collect()
}

fn chunk(kind: ChunkType, start: usize, count: usize, l: &[&str], r: &[&str]) -> MergeChunk {
    MergeChunk {
        chunk_type: kind,
        base_start: start,
        base_count: count,
        local_lines: lines(l),
        remote_lines: lines(r),
    }
}

fn shape(c: &MergeChunk) -> (ChunkType, usize, usize, Vec<String>, Vec<String>) {
    (c.chunk_type, c.base_start, c.base_count, c.local_lines.clone(), c.remote_lines.clone())
}

#[test]
fn insertion_chunk_kinds() {
    assert!(make_insertion_chunk(&lines(&[]), &lines(&[]), 3).is_none());
    let c = make_insertion_chunk(&lines(&["a \n"]), &lines(&[]), 3).unwrap();
    assert_eq!(shape(&c), (ChunkType::LocalOnly, 3, 0, lines(&["a"]), lines(&[])));
    let c = make_insertion_chunk(&lines(&[]), &lines(&["b\n", "c"]), 0).unwrap();
    assert_eq!(shape(&c), (ChunkType::RemoteOnly, 0, 0, lines(&[]), lines(&["b", "c"])));
    let c = make_insertion_chunk(&lines(&["s\n"]), &lines(&["s\n"]), 1).unwrap();
    assert_eq!(shape(&c), (ChunkType::Equal, 1, 0, lines(&["s"]), lines(&["s"])));
    let c = make_insertion_chunk(&lines(&["x "]), &lines(&["x"]), 2).unwrap();
    assert_eq!(shape(&c), (ChunkType::Conflict, 2, 0, lines(&["x"]), lines(&["x"])));
}

#[test]
fn base_chunk_kinds() {
    let line = "base".to_string();
    let c = make_base_chunk(&line, false, false, 4);
    assert_eq!(shape(&c), (ChunkType::Equal, 4, 1, lines(&["base"]), lines(&["base"])));
    let c = make_base_chunk(&line, true, false, 4);
    assert_eq!(shape(&c), (ChunkType::LocalOnly, 4, 1, lines(&[]), lines(&["base"])));
    let c = make_base_chunk(&line, false, true, 4);
    assert_eq!(shape(&c), (ChunkType::RemoteOnly, 4, 1, lines(&["base"]), lines(&[])));
    let c = make_base_chunk(&line, true, true, 4);
    assert_eq!(shape(&c), (ChunkType::Equal, 4, 1, lines(&[]), lines(&[])));
}

#[test]
fn push_chunk_joins_regions_of_one_kind() {
    let mut chunks = Vec::new();
    push_chunk(&mut chunks, chunk(ChunkType::Equal, 0, 1, &["a"], &["a"]));
    push_chunk(&mut chunks, chunk(ChunkType::Equal, 1, 1, &["b"], &["b"]));
    push_chunk(&mut chunks, chunk(ChunkType::LocalOnly, 2, 0, &["new"], &[]));
    push_chunk(&mut chunks, chunk(ChunkType::LocalOnly, 2, 1, &[], &["old"]));
    push_chunk(&mut chunks, chunk(ChunkType::Equal, 3, 1, &["c"], &["c"]));
    let got: Vec<_> = chunks.iter().map(shape).collect();
    assert_eq!(
        got,
        vec![
            (ChunkType::Equal, 0, 2, lines(&["a", "b"]), lines(&["a", "b"])),
            (ChunkType::LocalOnly, 2, 1, lines(&["new"]), lines(&["old"])),
            (ChunkType::Equal, 3, 1, lines(&["c"]), lines(&["c"])),
        ]
    );
}

#[test]
fn push_chunk_keeps_conflicts_apart() {
    let mut chunks = Vec::new();
    push_chunk(&mut chunks, chunk(ChunkType::Conflict, 0, 0, &["l"], &["r"]));
    push_chunk(&mut chunks, chunk(ChunkType::Conflict, 0, 0, &["m"], &["s"]));
    assert_eq!(chunks.len(), 2);
    assert_eq!(chunks[1].local_lines, lines(&["m"]));
}
