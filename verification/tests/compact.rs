use slayerfs_meta::compact::{skip_slices, split_slices, LARGE_SLICE};
use slayerfs_meta::slice::SliceDesc;

fn slice(chunk_id: u64, offset: u64, length: u64) -> SliceDesc {
    SliceDesc {
        slice_id: 0,
        chunk_id,
        offset,
        length,
    }
}

fn named(slice_id: u64, offset: u64, length: u64) -> SliceDesc {
    SliceDesc {
        slice_id,
        chunk_id: 1,
        offset,
        length,
    }
}

fn normalize(mut slices: Vec<SliceDesc>) -> Vec<(u64, u64)> {
    slices.sort_by_key(|s| (s.offset, s.length));
    slices.into_iter().map(|s| (s.offset, s.length)).collect()
}

fn assert_full_cover(input: &[SliceDesc], output: &[SliceDesc]) {
    let (mut l, mut r) = (u64::MAX, u64::MIN);
    for s in input {
        let (sl, sr) = s.range();
        l = l.min(sl);
        r = r.max(sr);
    }

    let mut out = output.to_vec();
    out.sort_by_key(|s| (s.offset, s.length));
    let mut cur = l;
    for s in &out {
        assert!(s.length > 0, "zero-length slice at {}", s.offset);
        assert_eq!(s.offset, cur, "gap or overlap at {}", cur);
        cur = s.offset + s.length;
    }
    assert_eq!(cur, r, "output does not cover full range");
}

fn visible_id(slices: &[SliceDesc], x: u64) -> u64 {
    for s in slices {
        if s.offset <= x && x < s.offset + s.length {
            return s.slice_id;
        }
    }
    0
}

#[test]
fn test_compact_slices_single() {
    let slices = vec![slice(1, 3, 7)];
    let (out, _, _) = split_slices(&slices);
    assert_eq!(normalize(out), normalize(slices.clone()));
    assert_full_cover(&slices, &split_slices(&slices).0);
}

#[test]
fn test_compact_slices_duplicate() {
    let slices = vec![slice(1, 0, 4), slice(1, 0, 4)];
    let (out, _, _) = split_slices(&slices);
    let got = normalize(out);
    let expect = normalize(vec![slice(1, 0, 4)]);
    assert_eq!(got, expect);
    assert_full_cover(&slices, &split_slices(&slices).0);
}

#[test]
fn test_compact_slices_overlap() {
    let slices = vec![slice(1, 0, 10), slice(1, 5, 10)];
    let (out, _, _) = split_slices(&slices);
    let got = normalize(out);
    let expect = normalize(vec![slice(1, 0, 10), slice(1, 10, 5)]);
    assert_eq!(got, expect);
    assert_full_cover(&slices, &split_slices(&slices).0);
}

#[test]
fn test_compact_slices_disjoint_includes_gap() {
    let slices = vec![slice(1, 0, 4), slice(1, 10, 2)];
    let (out, _, _) = split_slices(&slices);
    let got = normalize(out);
    let expect = normalize(vec![slice(1, 0, 4), slice(1, 4, 6), slice(1, 10, 2)]);
    assert_eq!(got, expect);
    assert_full_cover(&slices, &split_slices(&slices).0);
}

#[test]
fn test_compact_slices_unsorted_multiple_gaps() {
    let slices = vec![slice(1, 10, 2), slice(1, 0, 4), slice(1, 6, 2)];
    let (out, _, _) = split_slices(&slices);
    let got = normalize(out);
    let expect = normalize(vec![
        slice(1, 0, 4),
        slice(1, 4, 2),
        slice(1, 6, 2),
        slice(1, 8, 2),
        slice(1, 10, 2),
    ]);
    assert_eq!(got, expect);
    assert_full_cover(&slices, &split_slices(&slices).0);
}

#[test]
fn test_compact_slices_nested() {
    let slices = vec![slice(1, 0, 20), slice(1, 5, 5)];
    let (out, _, _) = split_slices(&slices);
    let got = normalize(out);
    let expect = normalize(vec![slice(1, 0, 20)]);
    assert_eq!(got, expect);
    assert_full_cover(&slices, &split_slices(&slices).0);
}

#[test]
fn test_compact_slices_contiguous() {
    let slices = vec![slice(1, 0, 4), slice(1, 4, 4)];
    let (out, _, _) = split_slices(&slices);
    let got = normalize(out);
    let expect = normalize(vec![slice(1, 0, 4), slice(1, 4, 4)]);
    assert_eq!(got, expect);
    assert_full_cover(&slices, &split_slices(&slices).0);
}

#[test]
fn test_compact_slices_overlap_small_first() {
    let slices = vec![slice(1, 5, 2), slice(1, 0, 10), slice(1, 2, 4)];
    let (out, _, _) = split_slices(&slices);
    let got = normalize(out);
    let expect = normalize(vec![slice(1, 0, 5), slice(1, 5, 2), slice(1, 7, 3)]);
    assert_eq!(got, expect);
    assert_full_cover(&slices, &split_slices(&slices).0);
}

#[test]
fn split_keeps_ids_and_reports_the_span() {
    let slices = vec![named(7, 5, 2), named(8, 0, 10), named(9, 14, 4)];
    let (out, offset, total) = split_slices(&slices);
    assert_eq!(
        out,
        vec![
            named(8, 0, 5),
            named(7, 5, 2),
            named(8, 7, 3),
            named(0, 10, 4),
            named(9, 14, 4),
        ]
    );
    assert_eq!((offset, total), (0, 18));
    for x in 0..20 {
        assert_eq!(visible_id(&out, x), visible_id(&slices, x));
    }
    assert_eq!(split_slices(&out), (out.clone(), 0, 18));
}

#[test]
fn split_files_all_pieces_under_the_last_chunk() {
    let mut slices = vec![named(7, 0, 2), named(8, 2, 2)];
    slices[1].chunk_id = 5;
    let (out, _, _) = split_slices(&slices);
    assert_eq!(out.iter().map(|s| s.chunk_id).collect::<Vec<u64>>(), vec![5, 5]);
}

#[test]
fn split_of_empty_slices() {
    let slices = vec![named(7, 3, 0)];
    assert_eq!(split_slices(&slices), (vec![], 3, 0));
    let slices = vec![named(7, 3, 0), named(8, 5, 1)];
    assert_eq!(
        split_slices(&slices),
        (vec![named(0, 3, 2), named(8, 5, 1)], 3, 3)
    );
}

#[test]
fn split_at_the_end_of_the_range() {
    let slices = vec![named(7, u64::MAX - 4, 4)];
    assert_eq!(
        split_slices(&slices),
        (vec![named(7, u64::MAX - 4, 4)], u64::MAX - 4, 4)
    );
}

#[test]
fn skip_small_first_slice_is_compacted() {
    let slices = vec![named(7, 0, LARGE_SLICE - 1), named(8, 0, 4)];
    assert_eq!(
        skip_slices(&slices),
        (vec![named(7, 0, LARGE_SLICE - 1)], 0, LARGE_SLICE - 1, 0)
    );
}

#[test]
fn skip_passes_over_large_first_slice() {
    let n = LARGE_SLICE;
    let slices = vec![named(7, 0, n), named(8, n, 10), named(9, n + 5, 10)];
    let (out, offset, total, skipped) = skip_slices(&slices);
    assert_eq!(out, vec![named(8, n, 10), named(9, n + 10, 5)]);
    assert_eq!((offset, total, skipped), (n, 15, 1));
    let mut whole = vec![slices[0]];
    whole.extend(out);
    for x in [0, n - 1, n, n + 9, n + 10, n + 14, n + 15] {
        assert_eq!(visible_id(&whole, x), visible_id(&slices, x));
    }
}

#[test]
fn skip_keeps_first_slice_below_a_fifth() {
    let n = LARGE_SLICE;
    let fifth = vec![named(7, 0, n), named(8, n, 4 * n)];
    assert_eq!(skip_slices(&fifth), (vec![], 0, 0, 1));
    let less = vec![named(7, 0, n), named(8, n, 4 * n + 1)];
    assert_eq!(
        skip_slices(&less),
        (vec![named(7, 0, n), named(8, n, 4 * n + 1)], 0, 5 * n + 1, 0)
    );
}

#[test]
fn skip_stops_where_the_first_slice_is_not_first() {
    let n = LARGE_SLICE;
    let slices = vec![named(7, 10, n), named(8, 0, 20)];
    assert_eq!(
        skip_slices(&slices),
        (vec![named(8, 0, 10), named(7, 10, n)], 0, n + 10, 0)
    );
    let mut other_chunk = vec![named(7, 0, n), named(8, n, 20)];
    other_chunk[1].chunk_id = 2;
    assert_eq!(skip_slices(&other_chunk).3, 0);
}

#[test]
fn skip_of_only_large_slices() {
    let n = LARGE_SLICE;
    assert_eq!(skip_slices(&[named(7, 0, n)]), (vec![], 0, 0, 0));
    assert_eq!(
        skip_slices(&[named(7, 0, n), named(8, n, n), named(9, 2 * n, n)]),
        (vec![], 0, 0, 2)
    );
}
