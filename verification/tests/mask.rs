use polygeo_core::error::TopologyError;
use polygeo_core::incidence::DegreeLayout;
use polygeo_core::mask::PackedDegreeMasksBuilder;

#[test]
fn checked_prefix_classifies_overflow() {
    assert_eq!(
        DegreeLayout::from_counts(vec![usize::MAX; 65]),
        Err(TopologyError::CountOverflow)
    );
}

#[test]
fn private_builder_enforces_set_bounds() {
    let layout = DegreeLayout::from_counts(vec![65]).unwrap();
    let mut builder = PackedDegreeMasksBuilder::empty(&layout).unwrap();
    builder.set(0, 0, true).unwrap();
    builder.set(0, 64, true).unwrap();
    assert_eq!(
        builder.set(0, 65, true),
        Err(TopologyError::MaskIndexOutside)
    );
    let masks = builder.finish();

    assert!(masks.contains(0, 0, &layout).unwrap());
    assert!(masks.contains(0, 64, &layout).unwrap());
}

#[test]
fn builder_round_trip_keeps_padding_clear() {
    let degrees: Vec<Vec<bool>> = vec![
        (0..70).map(|i| i % 3 == 0).collect(),
        vec![],
        (0..130).map(|i| i % 7 != 2).collect(),
        vec![true],
    ];
    let counts = degrees.iter().map(Vec::len).collect::<Vec<_>>();
    let layout = DegreeLayout::from_counts(counts).unwrap();
    assert_eq!(layout.word_offsets(), &[0, 2, 2, 5, 6]);
    let mut builder = PackedDegreeMasksBuilder::empty(&layout).unwrap();
    for (degree, values) in degrees.iter().enumerate() {
        for (index, selected) in values.iter().copied().enumerate() {
            builder.set(degree, index, selected).unwrap();
        }
    }
    // Overwrite one bit twice: the last write wins.
    builder.set(2, 64, false).unwrap();
    builder.set(2, 64, true).unwrap();
    assert_eq!(builder.contains(2, 64), Ok(true));
    let masks = builder.finish();
    for (degree, expected) in degrees.iter().enumerate() {
        let mut want = expected.clone();
        if degree == 2 {
            want[64] = true;
        }
        assert_eq!(masks.export_degree(degree, &layout).unwrap(), want);
        let mut written = vec![false; want.len()];
        masks.write_degree(degree, &layout, &mut written).unwrap();
        assert_eq!(written, want);
        let len = expected.len();
        if len % 64 != 0 {
            let last = layout.word_offsets()[degree + 1] - 1;
            assert_eq!(masks.words()[last] >> (len % 64), 0);
        }
    }
    assert_eq!(masks.words()[0] & 1, 1);
}

#[test]
fn mask_queries_classify_outside_requests() {
    let layout = DegreeLayout::from_counts(vec![3, 1]).unwrap();
    let mut builder = PackedDegreeMasksBuilder::empty(&layout).unwrap();
    assert_eq!(builder.set(2, 0, true), Err(TopologyError::DegreeOutside(2)));
    assert_eq!(builder.contains(1, 1), Err(TopologyError::MaskIndexOutside));
    builder.set(1, 0, true).unwrap();
    let masks = builder.finish();
    assert_eq!(masks.contains(5, 0, &layout), Err(TopologyError::DegreeOutside(5)));
    assert_eq!(masks.contains(0, 3, &layout), Err(TopologyError::MaskIndexOutside));
    assert_eq!(masks.export_degree(2, &layout), Err(TopologyError::DegreeOutside(2)));
    let mut wrong = vec![false; 2];
    assert_eq!(
        masks.write_degree(0, &layout, &mut wrong),
        Err(TopologyError::MaskShape)
    );
    assert_eq!(wrong, vec![false, false]);
    assert_eq!(masks.export_degree(1, &layout), Ok(vec![true]));

    let copy = PackedDegreeMasksBuilder::from_mask(&layout, &masks).unwrap();
    assert_eq!(copy.contains(1, 0), Ok(true));
    let other = DegreeLayout::from_counts(vec![200]).unwrap();
    assert!(matches!(
        PackedDegreeMasksBuilder::from_mask(&other, &masks),
        Err(TopologyError::MaskShape)
    ));
}
