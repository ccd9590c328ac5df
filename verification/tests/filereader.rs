//! The reader slice law exercised over in-memory chunk streams.

use hat_backup::fs::{FileReader, VecSource};

fn prop(data: Vec<Vec<u8>>, offset: u16, size: u8) -> bool {
    let offset: usize = offset as usize;
    let size: usize = size.into();

    let reference: Vec<u8> = data.iter().flat_map(|v| v.iter()).cloned().collect();

    let mut reader = FileReader::new_from_iter(Some(VecSource::new(data)));

    if let Some(slice) = reader.read(offset as u64, size) {
        let wanted_slice = if offset + size < reference.len() {
            &reference[offset..offset + size]
        } else if offset < reference.len() {
            &reference[offset..]
        } else {
            assert_eq!(0, size);
            &reference[0..0]
        };

        println!("offset: {}, size: {}", offset, size);
        assert_eq!(wanted_slice, &slice[..]);
    } else {
        assert!(reference.len() <= offset);
    }

    true
}

#[test]
fn filereader() {
    assert!(prop(vec![], 0, 0));
    assert!(prop(vec![vec![]], 0, 0));
    assert!(prop(vec![vec![1, 2, 3]], 0, 3));
    assert!(prop(vec![vec![1, 2, 3]], 1, 2));
    assert!(prop(vec![vec![1, 2, 3]], 2, 200));
    assert!(prop(vec![vec![1, 2, 3]], 3, 0));
    assert!(prop(vec![vec![1, 2, 3]], 4, 7));
    assert!(prop(vec![vec![], vec![1], vec![], vec![2, 3], vec![4, 5, 6]], 0, 6));
    assert!(prop(vec![vec![], vec![1], vec![], vec![2, 3], vec![4, 5, 6]], 2, 3));
    assert!(prop(vec![vec![0; 300], vec![7; 45], vec![9; 12]], 250, 120));
    assert!(prop(vec![vec![5; 1000]], 999, 1));
    assert!(prop(vec![vec![5; 1000]], 1000, 0));
    assert!(prop(vec![vec![5; 1000], vec![6; 1000]], 500, 250));
}

#[test]
fn filereader_absent_stream_reads_empty() {
    let mut reader: FileReader<VecSource> = FileReader::new_from_iter(None);
    assert!(reader.read(0, 10).is_none());
}

#[test]
fn filereader_forward_reads_chain() {
    let data = vec![vec![1u8, 2, 3, 4], vec![5, 6], vec![7, 8, 9]];
    let mut reader = FileReader::new_from_iter(Some(VecSource::new(data)));
    assert_eq!(reader.read(0, 4).unwrap(), vec![1, 2, 3, 4]);
    assert_eq!(reader.read(4, 3).unwrap(), vec![5, 6, 7]);
    assert_eq!(reader.read(7, 100).unwrap(), vec![8, 9]);
    assert!(reader.read(9, 1).is_none());
}
