use bytes::Bytes;
use slayerfs_meta::compact::split_slices;
use slayerfs_meta::data::{
    stored_data, CompactStep, CompactWrite, DeleteRun, DeleteStep, NoopData, SliceSource, WithData,
};
use slayerfs_meta::error::MetaError;
use slayerfs_meta::slice::{block_indices, ChunkLayout, SliceDesc};

fn slice(slice_id: u64, offset: u64, length: u64) -> SliceDesc {
    SliceDesc {
        slice_id,
        chunk_id: 4,
        offset,
        length,
    }
}

fn internal(text: &str) -> MetaError {
    MetaError::Internal(text.to_string())
}

fn bytes_of(bufs: &[Bytes]) -> Vec<u8> {
    bufs.iter().flat_map(|b| b.to_vec()).collect()
}

fn wait(step: CompactStep) -> CompactWrite {
    match step {
        CompactStep::Wait(run) => run,
        _ => panic!("no longer waiting"),
    }
}

#[test]
fn noop_data_is_not_configured() {
    assert_eq!(
        NoopData.write_compact_slice(1, 0, 4, &[slice(1, 0, 4)]),
        Err(internal("compact slice data op is not configured"))
    );
    assert_eq!(
        NoopData.delete_slices(&[]),
        Err(internal("delete slices op is not configured"))
    );
}

#[test]
fn compact_write_of_nothing() {
    match CompactWrite::start(9, 0, 4, &[]) {
        Err(e) => assert_eq!(e, internal("empty compact slices")),
        Ok(_) => panic!("nothing to write"),
    }
}

#[test]
fn compact_write_of_a_split_list() {
    let (out, offset, total) = split_slices(&[slice(7, 2, 3), slice(8, 8, 2)]);
    let (run, sources) = CompactWrite::start(9, offset, total, &out).unwrap();
    assert_eq!(sources.len(), 3);
    assert!(matches!(
        &sources[0],
        SliceSource::Stored { slice: s, length: 3 } if *s == slice(7, 2, 3)
    ));
    assert!(sources[0].hole_data().is_none());
    assert!(matches!(&sources[1], SliceSource::Zeros { length: 3 }));
    let hole = sources[1].hole_data().unwrap();
    assert_eq!(bytes_of(&hole), vec![0, 0, 0]);

    let run = wait(run.on_read(stored_data(Ok(vec![1, 2, 3]))));
    let run = wait(run.on_read(Ok(hole)));
    match run.on_read(stored_data(Ok(vec![4, 5]))) {
        CompactStep::Upload {
            chunk_id,
            new_id,
            offset,
            bufs,
        } => {
            assert_eq!((chunk_id, new_id, offset), (4, 9, 2));
            assert_eq!(bytes_of(&bufs), vec![1, 2, 3, 0, 0, 0, 4, 5]);
        }
        _ => panic!("nothing to upload"),
    }
}

#[test]
fn compact_write_keeps_the_order_of_arrival() {
    let slices = [slice(7, 0, 1), slice(8, 1, 1)];
    let (run, _) = CompactWrite::start(9, 0, 2, &slices).unwrap();
    let run = wait(run.on_read(stored_data(Ok(vec![8]))));
    match run.on_read(stored_data(Ok(vec![7]))) {
        CompactStep::Upload { bufs, .. } => assert_eq!(bytes_of(&bufs), vec![8, 7]),
        _ => panic!("nothing to upload"),
    }
}

#[test]
fn compact_write_checks_the_length() {
    let (run, _) = CompactWrite::start(9, 0, 1048576, &[slice(7, 0, 12)]).unwrap();
    match run.on_read(stored_data(Ok(vec![0; 12]))) {
        CompactStep::Fail(e) => assert_eq!(
            e,
            internal("compacted length mismatch: expect 1048576, got 12")
        ),
        _ => panic!("the length does not match"),
    }
    let (run, _) = CompactWrite::start(9, 0, 7, &[slice(7, 0, 0)]).unwrap();
    match run.on_read(stored_data(Ok(vec![]))) {
        CompactStep::Fail(e) => {
            assert_eq!(e, internal("compacted length mismatch: expect 7, got 0"))
        }
        _ => panic!("the length does not match"),
    }
    let (run, _) = CompactWrite::start(9, 0, 0, &[slice(7, 0, 12)]).unwrap();
    assert!(matches!(
        run.on_read(stored_data(Ok(vec![0; 5]))),
        CompactStep::Upload { .. }
    ));
}

#[test]
fn compact_write_passes_errors_on() {
    let (run, _) = CompactWrite::start(9, 0, 4, &[slice(7, 0, 4), slice(8, 4, 4)]).unwrap();
    match run.on_read(stored_data(Err("disk is gone".to_string()))) {
        CompactStep::Fail(e) => assert_eq!(e, internal("disk is gone")),
        _ => panic!("the read failed"),
    }
    assert_eq!(
        CompactWrite::on_uploaded(Err("no room".to_string())),
        Err(internal("no room"))
    );
    assert_eq!(
        CompactWrite::on_uploaded(Ok(slice(9, 0, 4))),
        Ok(slice(9, 0, 4))
    );
}

#[test]
fn blocks_of_a_slice() {
    let layout = ChunkLayout { block_size: 10 };
    assert_eq!(block_indices(slice(7, 0, 10), layout), vec![0]);
    assert_eq!(block_indices(slice(7, 9, 2), layout), vec![0, 1]);
    assert_eq!(block_indices(slice(7, 25, 21), layout), vec![2, 3, 4]);
    assert_eq!(block_indices(slice(7, 25, 0), layout), Vec::<u32>::new());
}

#[test]
fn delete_run_waits_for_every_block() {
    let layout = ChunkLayout { block_size: 10 };
    let (step, keys) = DeleteRun::start(&[slice(7, 5, 10), slice(8, 0, 0), slice(0, 30, 1)], layout);
    assert_eq!(keys, vec![(7, 0), (7, 1), (0, 3)]);
    let mut step = step;
    for left in [2, 1] {
        step = match step {
            DeleteStep::Wait(run) => run.on_deleted(Ok(())),
            _ => panic!("no longer waiting"),
        };
        assert!(matches!(&step, DeleteStep::Wait(run) if run.waiting == left));
    }
    match step {
        DeleteStep::Wait(run) => assert!(matches!(run.on_deleted(Ok(())), DeleteStep::Done)),
        _ => panic!("no longer waiting"),
    }
}

#[test]
fn delete_run_ends_with_the_first_error() {
    let layout = ChunkLayout { block_size: 10 };
    match DeleteRun::start(&[slice(7, 5, 10)], layout).0 {
        DeleteStep::Wait(run) => match run.on_deleted(Err(internal("locked"))) {
            DeleteStep::Fail(e) => assert_eq!(e, internal("locked")),
            _ => panic!("the deletion failed"),
        },
        _ => panic!("nothing was deleted yet"),
    }
    let (step, keys) = DeleteRun::start(&[], layout);
    assert!(matches!(step, DeleteStep::Done));
    assert!(keys.is_empty());
}
