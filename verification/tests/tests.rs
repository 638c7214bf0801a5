use tbl::blocks::build_blocks;
use tbl::interval::{split_overlapping, TBLInterval};
use tbl::{Bound, Renderer, TBLError};

#[test]
fn test_split_overlapping() {
    let intervals: Vec<TBLInterval<String>> = vec![TBLInterval::new((0, 2), None)];
    let non_overlapping_subsets = split_overlapping(intervals);
    assert_eq!(non_overlapping_subsets.len(), 1);
    let intervals: Vec<TBLInterval<String>> = vec![
        TBLInterval::new((0, 2), None),
        TBLInterval::new((1, 3), None),
    ];
    let non_overlapping_subsets = split_overlapping(intervals);
    assert_eq!(non_overlapping_subsets.len(), 2);
    let intervals: Vec<TBLInterval<String>> = vec![
        TBLInterval::new((0, 2), None),
        TBLInterval::new((3, 5), None),
    ];
    let non_overlapping_subsets = split_overlapping(intervals);
    assert_eq!(non_overlapping_subsets.len(), 1);
}

#[test]
fn test_empty() {
    let data: Vec<Bound> = vec![];
    let rendered = Renderer::new(data.as_slice(), &|&e| e, &|_| None::<String>)
        .with_length(8)
        .render();
    let bars = rendered.unwrap();
    assert_eq!(bars.len(), 1);
    assert_eq!(bars[0], vec!["        ".to_string()]);
}

#[test]
fn test_intersection() {
    let data: Vec<TBLInterval<String>> = vec![
        TBLInterval::new((0, 2), None),
        TBLInterval::new((1, 4), None),
    ];
    let rendered = build_blocks(data.as_slice(), 8, None);
    assert!(match rendered {
        Err(TBLError::Intersection(_, _)) => true,
        _ => false,
    })
}

#[test]
fn test_ok() {
    let data: Vec<Bound> = vec![(0, 2), (3, 4)];
    let rendered = Renderer::new(data.as_slice(), &|&e| e, &|_| None::<String>)
        .with_length(8)
        .render();
    assert_eq!(rendered.unwrap()[0][0], "====  ==")
}

#[test]
fn test_length_0() {
    let data: Vec<Bound> = vec![(0, 2), (3, 4)];
    let rendered = Renderer::new(data.as_slice(), &|&e| e, &|_| None::<String>)
        .with_length(0)
        .render();
    assert_eq!(rendered.unwrap()[0][0], "")
}

#[test]
fn test_boundaries_ok() {
    let data: Vec<Bound> = vec![(1, 2), (3, 4)];
    let rendered = Renderer::new(data.as_slice(), &|&e| e, &|_| None::<String>)
        .with_length(10)
        .with_boundaries((0, 5))
        .render();
    assert_eq!(rendered.unwrap()[0][0], "  ==  ==  ")
}

#[test]
fn test_boundaries_ok2() {
    let data: Vec<Bound> = vec![(1, 2), (3, 4)];
    for length in 0..100 {
        let rendered = Renderer::new(data.as_slice(), &|&e| e, &|_| None::<String>)
            .with_length(length)
            .with_boundaries((0, 3))
            .render();
        assert_eq!(rendered.unwrap()[0][0].len(), length);
    }
}
