use tbl::interval::{
    boundaries, intersect, is_empty, size, space_between, split_overlapping, union, TBLInterval,
};
use tbl::rendering::{
    break_down, lines, render_default, single_line, transpose, traverse, uncons,
    SingleLineRenderBlock,
};
use tbl::{Block, RenderBlock};

#[test]
fn test_new_reorders_reversed_bounds() {
    let iv: TBLInterval<String> = TBLInterval::new((5, 2), None);
    assert_eq!(iv.bounds, (2, 5));
    let iv: TBLInterval<String> = TBLInterval::new((2, 5), Some("x".to_string()));
    assert_eq!(iv.bounds, (2, 5));
    assert_eq!(iv.label, Some("x".to_string()));
}

#[test]
fn test_is_empty_and_size() {
    let point: TBLInterval<String> = TBLInterval::new((3, 3), None);
    assert!(is_empty(&point));
    assert_eq!(size(&point), 0);
    let iv: TBLInterval<String> = TBLInterval::new((-2, 5), None);
    assert!(!is_empty(&iv));
    assert_eq!(size(&iv), 7);
}

#[test]
fn test_intersect_adjacency() {
    let a: TBLInterval<String> = TBLInterval::new((0, 2), None);
    let touching: TBLInterval<String> = TBLInterval::new((2, 3), None);
    let inside: TBLInterval<String> = TBLInterval::new((1, 4), None);
    assert!(!intersect(&a, &touching));
    assert!(intersect(&a, &inside));
    assert!(intersect(&a, &a));
}

#[test]
fn test_boundaries_and_union() {
    let ivs: Vec<TBLInterval<String>> = vec![
        TBLInterval::new((4, 6), None),
        TBLInterval::new((-1, 2), None),
        TBLInterval::new((0, 9), None),
    ];
    assert_eq!(boundaries(ivs.as_slice()), Some((-1, 9)));
    let none: Vec<TBLInterval<String>> = vec![];
    assert_eq!(boundaries(none.as_slice()), None);
    assert_eq!(union(&(-1, 4), &(0, 9)), (-1, 9));
}

#[test]
fn test_space_between_gap() {
    let a: TBLInterval<String> = TBLInterval::new((0, 2), None);
    let b: TBLInterval<String> = TBLInterval::new((5, 7), None);
    let gap = space_between(&a, &b);
    assert_eq!(gap.bounds, (2, 5));
    assert!(gap.label.is_none());
}

#[test]
fn test_split_keeps_members() {
    let ivs: Vec<TBLInterval<String>> = vec![
        TBLInterval::new((0, 2), Some("a".to_string())),
        TBLInterval::new((1, 4), Some("b".to_string())),
        TBLInterval::new((4, 5), Some("c".to_string())),
    ];
    let groups = split_overlapping(ivs);
    assert_eq!(groups.len(), 2);
    let mut labels: Vec<String> = groups
        .iter()
        .flatten()
        .map(|iv| iv.label.clone().unwrap())
        .collect();
    labels.sort();
    assert_eq!(labels, vec!["a".to_string(), "b".to_string(), "c".to_string()]);
}

#[test]
fn test_render_default_blocks() {
    let space: Block<String> = Block::Space(3);
    assert_eq!(render_default(&space), RenderBlock::Space("   ".to_string()));
    let seg: Block<String> = Block::Segment(4, Some("x".to_string()));
    assert_eq!(render_default(&seg), RenderBlock::Block("====".to_string()));
    let zero: Block<String> = Block::Segment(0, None);
    assert_eq!(render_default(&zero), RenderBlock::Block("".to_string()));
}

#[test]
fn test_lines_counts() {
    assert_eq!(lines(&RenderBlock::Block("ab".to_string())), 1);
    assert_eq!(lines(&RenderBlock::Space("  ".to_string())), 1);
    let ml = RenderBlock::MultiLineBlock(vec!["a".to_string(), "b".to_string(), "c".to_string()]);
    assert_eq!(lines(&ml), 3);
    assert_eq!(lines(&RenderBlock::MultiLineSpace(vec![])), 0);
}

#[test]
fn test_single_line_and_break_down() {
    let one = RenderBlock::Block("ab".to_string());
    assert!(single_line(&one).is_some());
    let many = RenderBlock::MultiLineSpace(vec!["x".to_string(), "y".to_string()]);
    assert!(single_line(&many).is_none());
    let parts = break_down(&many);
    assert_eq!(parts.len(), 2);
    assert_eq!(parts[0].text(), "x");
    assert_eq!(parts[1].text(), "y");
    let single_part = break_down(&one);
    assert_eq!(single_part.len(), 1);
    assert_eq!(single_part[0].text(), "ab");
}

#[test]
fn test_slrb_text_and_clone() {
    let b = SingleLineRenderBlock::Block("abc".to_string());
    assert_eq!(b.text(), "abc");
    let c = b.clone();
    assert_eq!(c.text(), "abc");
}

#[test]
fn test_uncons_splits() {
    assert_eq!(uncons(Vec::<i32>::new()), None);
    let r = uncons(vec![1, 2, 3]).unwrap();
    assert_eq!(r.0, 1);
    assert_eq!(r.1, vec![2, 3]);
}

#[test]
fn test_traverse_collects_or_fails() {
    let double_positive = |x: i32| if x > 0 { Some(x * 2) } else { None };
    assert_eq!(traverse(&double_positive, vec![1, 2, 3]), Some(vec![2, 4, 6]));
    assert_eq!(traverse(&double_positive, vec![1, 0, 3]), None);
    assert_eq!(traverse(&double_positive, Vec::new()), Some(Vec::new()));
}

#[test]
fn test_transpose_rows_and_columns() {
    let v = vec![vec![1, 2], vec![3, 4], vec![5, 6]];
    assert_eq!(transpose(v), vec![vec![1, 3, 5], vec![2, 4, 6]]);
    let ragged = vec![vec![1, 2], vec![3]];
    assert_eq!(transpose(ragged), vec![vec![1, 3]]);
    assert_eq!(transpose(Vec::<Vec<i32>>::new()), Vec::<Vec<i32>>::new());
}
