use simdcsv::parser::{
    find_indexes, find_indexes_blocks, find_indexes_fallback, process_tail_scalar, ParsedCsv,
};
use simdcsv::{parse_csv, CSV_PADDING};

fn count_separators(data: &[u8]) -> usize {
    data.iter().filter(|&&b| b == b',' || b == b'\n').count()
}

fn scalar(data: &[u8]) -> Vec<u32> {
    let mut pcsv = ParsedCsv::with_capacity(0);
    assert!(find_indexes_fallback(data, &mut pcsv));
    pcsv.indexes
}

fn blocks(data: &[u8]) -> Vec<u32> {
    let mut pcsv = ParsedCsv::with_capacity(0);
    assert!(find_indexes_blocks(data, &mut pcsv));
    pcsv.indexes
}

#[test]
fn test_parse_simple_csv() {
    let mut data = Vec::new();
    for i in 0..20 {
        data.extend_from_slice(format!("field{},value{}\n", i, i).as_bytes());
    }

    let pcsv = parse_csv(&data);

    assert!(!pcsv.indexes.is_empty());

    let comma_count = data.iter().filter(|&&b| b == b',').count();
    let newline_count = data.iter().filter(|&&b| b == b'\n').count();

    assert_eq!(pcsv.indexes.len(), comma_count + newline_count);
}

#[test]
fn test_parse_quoted_csv() {
    let mut data = Vec::new();
    for i in 0..10 {
        data.extend_from_slice(format!("\"field,{}\",value{}\n", i, i).as_bytes());
    }

    let pcsv = parse_csv(&data);

    assert!(!pcsv.indexes.is_empty());

    let comma_count = data.iter().filter(|&&b| b == b',').count();
    let newline_count = data.iter().filter(|&&b| b == b'\n').count();

    assert!(pcsv.indexes.len() < comma_count + newline_count);
}

#[test]
fn test_parse_empty() {
    let data = b"";
    let pcsv = parse_csv(data);
    assert!(pcsv.indexes.is_empty());
}

#[test]
fn test_parse_no_separators() {
    let data = vec![b'a'; 100];
    let pcsv = parse_csv(&data);
    assert!(pcsv.indexes.is_empty());
}

#[test]
fn three_plain_records() {
    let pcsv = parse_csv(b"a,b,c\n1,2,3\n4,5,6\n");
    assert_eq!(pcsv.indexes, vec![1, 3, 5, 7, 9, 11, 13, 15, 17]);
}

#[test]
fn quoted_comma_is_skipped() {
    assert_eq!(parse_csv(b"\"a,b\",c\n").indexes, vec![5, 7]);
}

#[test]
fn empty_quoted_fields() {
    assert_eq!(parse_csv(b"\"\",\"\",\"\"\n").indexes, vec![2, 5, 8]);
}

#[test]
fn lone_quote_midword() {
    // One `"` precedes both the `,` at 3 and the `\n` at 5: both are inside.
    assert_eq!(parse_csv(b"a\"b,c\n").indexes, Vec::<u32>::new());
    assert_eq!(parse_csv(b"a\"b,c\"\n").indexes, vec![6]);
}

#[test]
fn padded_input_ignores_padding() {
    let data = b"a,b,c\n1,2,3\n4,5,6\n";
    let mut padded = data.to_vec();
    padded.extend(std::iter::repeat(b',').take(CSV_PADDING));
    let pcsv = parse_csv(&padded[..data.len()]);
    assert_eq!(pcsv.indexes, vec![1, 3, 5, 7, 9, 11, 13, 15, 17]);
    assert!(pcsv.indexes.iter().all(|&o| (o as usize) < data.len()));
}

#[test]
fn sixty_three_bytes_scalar_only() {
    let mut data = Vec::new();
    while data.len() < 63 {
        data.extend_from_slice(b"ab,");
    }
    data.truncate(63);
    data[20] = b'\n';
    let expected: Vec<u32> = (0..63u32)
        .filter(|&i| data[i as usize] == b',' || data[i as usize] == b'\n')
        .collect();
    assert_eq!(expected.len(), 21);
    assert_eq!(parse_csv(&data).indexes, expected);
    assert_eq!(scalar(&data), expected);
}

#[test]
fn sixty_four_bytes_one_block() {
    let mut data = vec![b'x'; 64];
    data[0] = b',';
    data[10] = b'"';
    data[12] = b',';
    data[20] = b'"';
    data[30] = b'\n';
    data[63] = b',';
    assert_eq!(parse_csv(&data).indexes, vec![0, 30, 63]);
    assert_eq!(blocks(&data), vec![0, 30, 63]);
}

#[test]
fn trailing_unmatched_quote() {
    let mut data = Vec::new();
    for _ in 0..30 {
        data.extend_from_slice(b"a,b\n");
    }
    data.push(b'"');
    let n = data.len() as u32;
    let pcsv = parse_csv(&data);
    assert_eq!(pcsv.indexes.len(), 60);
    assert!(pcsv.indexes.iter().all(|&o| o < n - 1));
}

#[test]
fn unterminated_quote_hides_rest() {
    let mut data = b"a,\"b".to_vec();
    for _ in 0..100 {
        data.extend_from_slice(b",x\n");
    }
    assert_eq!(parse_csv(&data).indexes, vec![1]);
}

#[test]
fn carriage_return_is_not_structural() {
    assert_eq!(parse_csv(b"a,b\r\nc\r\n").indexes, vec![1, 4, 7]);
}

#[test]
fn quote_spanning_blocks() {
    let mut data = vec![b'a'; 300];
    data[60] = b'"';
    data[70] = b',';
    data[130] = b'\n';
    data[200] = b'"';
    data[210] = b',';
    data[299] = b'\n';
    assert_eq!(parse_csv(&data).indexes, vec![210, 299]);
}

#[test]
fn block_and_scalar_paths_agree() {
    let mut data = Vec::new();
    for i in 0..200 {
        if i % 3 == 0 {
            data.extend_from_slice(format!("\"q,{}\"\"x\",{}\n", i, i).as_bytes());
        } else {
            data.extend_from_slice(format!("f{},g{}\n", i, i).as_bytes());
        }
    }
    for len in [0, 1, 63, 64, 65, 255, 256, 257, 511, 512, 1000, data.len()] {
        let part = &data[..len];
        assert_eq!(blocks(part), scalar(part));
    }
}

#[test]
fn scanning_twice_is_identical() {
    let mut data = Vec::new();
    for i in 0..50 {
        data.extend_from_slice(format!("\"a,{}\",b\n", i).as_bytes());
    }
    assert_eq!(parse_csv(&data).indexes, parse_csv(&data).indexes);
}

#[test]
fn no_quotes_reports_every_separator() {
    let mut data = Vec::new();
    for i in 0..40 {
        data.extend_from_slice(format!("{},{},{}\n", i, i + 1, i + 2).as_bytes());
    }
    let expected: Vec<u32> = (0..data.len() as u32)
        .filter(|&i| data[i as usize] == b',' || data[i as usize] == b'\n')
        .collect();
    assert_eq!(parse_csv(&data).indexes, expected);
    assert_eq!(expected.len(), count_separators(&data));
}

#[test]
fn appends_to_existing_offsets() {
    let mut pcsv = ParsedCsv::with_capacity(4);
    pcsv.indexes.push(99);
    assert!(find_indexes(b"a,b\n", &mut pcsv));
    assert_eq!(pcsv.indexes, vec![99, 1, 3]);
}

#[test]
fn split_at_block_boundary_matches_whole() {
    let mut data = Vec::new();
    for i in 0..30 {
        data.extend_from_slice(format!("x{},y{}\n", i, i).as_bytes());
    }
    let whole = parse_csv(&data).indexes;
    let first = parse_csv(&data[..128]).indexes;
    let second: Vec<u32> = parse_csv(&data[128..]).indexes.iter().map(|o| o + 128).collect();
    let mut joined = first;
    joined.extend(second);
    assert_eq!(whole, joined);
}

#[test]
fn split_scan_threads_carry() {
    let mut data = Vec::new();
    for i in 0..12 {
        data.extend_from_slice(format!("\"a,{}\nb\",c{}\n", i, i).as_bytes());
    }
    let whole = parse_csv(&data).indexes;
    for k in [0usize, 64, 128] {
        let carry = data[..k].iter().filter(|&&b| b == b'"').count() % 2 == 1;
        let mut pcsv = ParsedCsv::with_capacity(0);
        process_tail_scalar(&data[..k], 0, &mut pcsv, false);
        process_tail_scalar(&data[k..], k, &mut pcsv, carry);
        assert_eq!(pcsv.indexes, whole);
    }
}

#[test]
fn unmatched_quote_mid_buffer() {
    let mut data = b"x,y\n\"".to_vec();
    for _ in 0..40 {
        data.extend_from_slice(b"p,q\n");
    }
    let pcsv = parse_csv(&data);
    assert_eq!(pcsv.indexes, vec![1, 3]);
}
