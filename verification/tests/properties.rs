use tbl::{Block, Bound, RenderBlock, Renderer};

#[test]
fn test_default_length_is_terminal_width() {
    let data: Vec<Bound> = vec![(0, 1)];
    let rendered = Renderer::new(data.as_slice(), &|&e| e, &|_| None::<String>)
        .render()
        .unwrap();
    assert_eq!(rendered.len(), 1);
    assert_eq!(rendered[0].len(), 1);
    assert_eq!(rendered[0][0], "=".repeat(90));
}

#[test]
fn test_doc_example_scaling() {
    let data: Vec<Bound> = vec![(0, 2), (3, 4)];
    let rendered = Renderer::new(data.as_slice(), &|&e| e, &|_| None::<String>)
        .with_length(42)
        .render()
        .unwrap();
    assert_eq!(
        rendered[0][0],
        "=====================          ==========="
    );
}

#[test]
fn test_overlapping_split_into_two_groups() {
    let data: Vec<Bound> = vec![(0, 2), (1, 4)];
    let rendered = Renderer::new(data.as_slice(), &|&e| e, &|_| None::<String>)
        .with_length(8)
        .render()
        .unwrap();
    assert_eq!(rendered.len(), 2);
    assert_eq!(rendered[0], vec!["  ======".to_string()]);
    assert_eq!(rendered[1], vec!["====    ".to_string()]);
}

#[test]
fn test_idempotent_render() {
    let data: Vec<Bound> = vec![(0, 2), (1, 4), (5, 6)];
    let first = Renderer::new(data.as_slice(), &|&e| e, &|_| None::<String>)
        .with_length(30)
        .with_boundaries((-2, 8))
        .render()
        .unwrap();
    let second = Renderer::new(data.as_slice(), &|&e| e, &|_| None::<String>)
        .with_length(30)
        .with_boundaries((-2, 8))
        .render()
        .unwrap();
    assert_eq!(first, second);
}

#[test]
fn test_every_line_width_equals_length() {
    let data: Vec<Bound> = vec![(-3, 2), (1, 4), (4, 7), (9, 11)];
    for length in 0..100 {
        let rendered = Renderer::new(data.as_slice(), &|&e| e, &|_| None::<String>)
            .with_length(length)
            .with_boundaries((-5, 13))
            .render()
            .unwrap();
        for bar in rendered.iter() {
            assert_eq!(bar.len(), 1);
            assert_eq!(bar[0].len(), length);
        }
    }
}

fn two_line_renderer(b: &Block<String>) -> RenderBlock {
    match b {
        Block::Space(w) => RenderBlock::Space(".".repeat(*w)),
        Block::Segment(w, _) => {
            RenderBlock::MultiLineBlock(vec!["A".repeat(*w), "B".repeat(*w)])
        }
    }
}

#[test]
fn test_multiline_renderer_pads_spaces() {
    let data: Vec<Bound> = vec![(0, 2), (3, 4)];
    let rendered = Renderer::new(data.as_slice(), &|&e| e, &|_| None::<String>)
        .with_length(8)
        .with_renderer(&two_line_renderer)
        .render()
        .unwrap();
    assert_eq!(rendered.len(), 1);
    assert_eq!(rendered[0].len(), 2);
    assert_eq!(rendered[0][0], "AAAA..AA");
    assert_eq!(rendered[0][1], "BBBB..BB");
    assert_eq!(rendered[0][0].len(), 8);
    assert_eq!(rendered[0][1].len(), 8);
}

#[test]
fn test_floor_scaling_gives_remainder_to_later_blocks() {
    let data: Vec<Bound> = vec![(0, 1), (2, 3)];
    let rendered = Renderer::new(data.as_slice(), &|&e| e, &|_| None::<String>)
        .with_length(7)
        .render()
        .unwrap();
    assert_eq!(rendered[0][0], "==  ===");
}

#[test]
fn test_negative_coordinates() {
    let data: Vec<Bound> = vec![(-4, -2), (0, 2)];
    let rendered = Renderer::new(data.as_slice(), &|&e| e, &|_| None::<String>)
        .with_length(8)
        .render()
        .unwrap();
    assert_eq!(rendered[0][0], "==   ===");
}

#[test]
fn test_extreme_coordinates() {
    let data: Vec<Bound> = vec![(i64::MIN, 0), (1, i64::MAX)];
    let rendered = Renderer::new(data.as_slice(), &|&e| e, &|_| None::<String>)
        .with_length(10)
        .render()
        .unwrap();
    assert_eq!(rendered.len(), 1);
    assert_eq!(rendered[0][0], "==========");
}

fn declining_space_renderer(b: &Block<String>) -> RenderBlock {
    match b {
        Block::Space(w) => RenderBlock::MultiLineSpace(vec!["x".repeat(*w)]),
        Block::Segment(w, _) => {
            RenderBlock::MultiLineBlock(vec!["A".repeat(*w), "B".repeat(*w)])
        }
    }
}

#[test]
fn test_fallback_plain_spaces_for_declined_space() {
    let data: Vec<Bound> = vec![(0, 2), (3, 4)];
    let rendered = Renderer::new(data.as_slice(), &|&e| e, &|_| None::<String>)
        .with_length(8)
        .with_renderer(&declining_space_renderer)
        .render()
        .unwrap();
    assert_eq!(rendered[0].len(), 2);
    assert_eq!(rendered[0][0], "AAAAxxAA");
    assert_eq!(rendered[0][1], "BBBB  BB");
}

fn label_renderer(b: &Block<String>) -> RenderBlock {
    match b {
        Block::Space(w) => RenderBlock::Space(" ".repeat(*w)),
        Block::Segment(w, label) => {
            let mut truncated = label.clone().unwrap_or_default();
            truncated.truncate(*w);
            let pad = "*".repeat(*w - truncated.len());
            RenderBlock::Block(format!("{}{}", truncated, pad))
        }
    }
}

#[test]
fn test_custom_renderer_with_labels() {
    let data: Vec<(Bound, &str)> = vec![((0, 2), "hello"), ((3, 4), "world!")];
    let rendered = Renderer::new(data.as_slice(), &|t: &(Bound, &str)| t.0, &|t| {
        Some(t.1.to_string())
    })
    .with_length(8)
    .with_renderer(&label_renderer)
    .render()
    .unwrap();
    assert_eq!(rendered[0][0], "hell  wo");
}
