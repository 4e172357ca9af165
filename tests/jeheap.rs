use persist_txn::{parse_jeheap, HeapDumpError};

fn lines(text: &[&str]) -> Vec<Vec<u8>> {
    text.iter().map(|l| l.as_bytes().to_vec()).collect()
}

#[test]
fn parses_stacks_and_weights() {
    let dump = parse_jeheap(&lines(&[
        "heap_v2/524288",
        "  t*: 40274: 2822125696 [0: 0]",
        "@ 0x1a 0x2B\t0xff",
        "  t*: 3: 96 [0: 0]",
        "  t1: 3: 96 [0: 0]",
        "@ 10",
        "t*: 1:: 8 [0: 0]",
    ]))
    .unwrap();
    assert_eq!(dump.sampling_rate, 524288);
    assert_eq!(dump.stacks.len(), 2);
    assert_eq!(dump.stacks[0].addrs, vec![0xff, 0x2b, 0x1a]);
    assert_eq!(dump.stacks[0].n_objs, 3);
    assert_eq!(dump.stacks[0].bytes, 96);
    assert_eq!(dump.stacks[1].addrs, vec![0x10]);
    assert_eq!(dump.stacks[1].n_objs, 1);
    assert_eq!(dump.stacks[1].bytes, 8);
}

#[test]
fn number_forms() {
    let dump = parse_jeheap(&lines(&["heap_v2/heap_v2/+7", "@ 0x0x1f +a", "t*: +2: 5"])).unwrap();
    assert_eq!(dump.sampling_rate, 7);
    assert_eq!(dump.stacks[0].addrs, vec![0xa, 0x1f]);
    assert_eq!(dump.stacks[0].n_objs, 2);
    let max = format!("heap_v2/{}", usize::MAX);
    assert_eq!(parse_jeheap(&lines(&[&max])).unwrap().sampling_rate, usize::MAX);
    let over = format!("heap_v2/{}0", usize::MAX);
    assert_eq!(parse_jeheap(&lines(&[&over])), Err(HeapDumpError::BadNumber));
}

#[test]
fn heap_dump_errors() {
    assert_eq!(parse_jeheap(&Vec::new()), Err(HeapDumpError::Empty));
    assert_eq!(parse_jeheap(&lines(&["heap_v1/5"])), Err(HeapDumpError::BadNumber));
    assert_eq!(parse_jeheap(&lines(&["heap_v2/"])), Err(HeapDumpError::BadNumber));
    assert_eq!(
        parse_jeheap(&lines(&["heap_v2/5", "@ 0x1", "@ 0x2", "t*: 1: 2"])),
        Err(HeapDumpError::StackWithoutWeight)
    );
    assert_eq!(
        parse_jeheap(&lines(&["heap_v2/5", "@ 0x1"])),
        Err(HeapDumpError::StackWithoutWeight)
    );
    assert_eq!(parse_jeheap(&lines(&["heap_v2/5", "@ 0xg"])), Err(HeapDumpError::BadNumber));
    assert_eq!(
        parse_jeheap(&lines(&["heap_v2/5", "@ 0x1", "t*: x: 2"])),
        Err(HeapDumpError::BadNumber)
    );
    // A summary line with too few words does not close the stack.
    assert_eq!(
        parse_jeheap(&lines(&["heap_v2/5", "@ 0x1", "t*: 1"])),
        Err(HeapDumpError::StackWithoutWeight)
    );
}
