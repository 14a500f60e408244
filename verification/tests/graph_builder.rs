use fluent_graph::builder::FluentGraphBuilder;
use fluent_graph::node::{fluently, FluentNode, IdSource};
use fluent_graph::operations::{
    Color, ColorSrgb, Edge, EdgeKind, EncoderPreset, Filter, Framewise, Graph, Node, PixelFormat,
    PngBitDepth, ResampleHints,
};

fn graph_of(builder: &FluentGraphBuilder) -> Graph {
    match builder.to_framewise() {
        Framewise::Graph(g) => g,
        Framewise::Steps(_) => panic!("an assembler writes a graph"),
    }
}

fn node_at<'a>(g: &'a Graph, key: &str) -> &'a Node {
    let found: Vec<&(String, Node)> = g.nodes.iter().filter(|entry| entry.0 == key).collect();
    assert_eq!(found.len(), 1);
    &found[0].1
}

fn has_edge(g: &Graph, from: u64, to: u64, kind: EdgeKind) -> bool {
    g.edges.iter().filter(|e| **e == Edge { from, to, kind }).count() == 1
}

fn black_canvas() -> Node {
    Node::CreateCanvas { w: 200, h: 200, format: PixelFormat::Bgra32, color: Color::Black }
}

#[test]
fn test_graph_builder() {
    let mut ids = IdSource::new();
    let a = fluently(&mut ids)
        .to(&mut ids, Node::CreateCanvas { w: 200, h: 200, format: PixelFormat::Bgra32, color: Color::Black })
        .to(&mut ids, Node::FlipV);
    let b = a.branch().to(&mut ids, Node::Encode { preset: EncoderPreset::libjpegturbo(), io_id: 0 });
    let c = a
        .branch()
        .to(&mut ids, Node::Resample2D { w: 100, h: 100, down_filter: None, up_filter: None, hints: None })
        .to(&mut ids, Node::Encode { preset: EncoderPreset::libpng32(), io_id: 1 });
    b.builder().with(c).to_framewise();
}

#[test]
fn two_encoders_share_a_flipped_canvas() {
    let mut ids = IdSource::new();
    let a = fluently(&mut ids).to(&mut ids, black_canvas()).to(&mut ids, Node::FlipV);
    let b = a.branch().to(&mut ids, Node::Encode { preset: EncoderPreset::libjpegturbo(), io_id: 0 });
    let c = a
        .branch()
        .to(&mut ids, Node::Resample2D { w: 100, h: 100, down_filter: None, up_filter: None, hints: None })
        .to(&mut ids, Node::Encode { preset: EncoderPreset::libpng32(), io_id: 1 });
    let g = graph_of(&b.builder().with(c));

    assert_eq!(g.nodes.len(), 5);
    assert_eq!(*node_at(&g, "0"), black_canvas());
    assert_eq!(*node_at(&g, "1"), Node::FlipV);
    assert_eq!(
        *node_at(&g, "2"),
        Node::Encode { preset: EncoderPreset::LibjpegTurbo { quality: Some(100) }, io_id: 0 }
    );
    assert_eq!(
        *node_at(&g, "3"),
        Node::Resample2D { w: 100, h: 100, down_filter: None, up_filter: None, hints: None }
    );
    assert_eq!(
        *node_at(&g, "4"),
        Node::Encode {
            preset: EncoderPreset::Libpng {
                depth: Some(PngBitDepth::Png32),
                matte: None,
                zlib_compression: None
            },
            io_id: 1
        }
    );

    assert_eq!(g.edges.len(), 4);
    assert!(has_edge(&g, 0, 1, EdgeKind::Input));
    assert!(has_edge(&g, 1, 2, EdgeKind::Input));
    assert!(has_edge(&g, 1, 3, EdgeKind::Input));
    assert!(has_edge(&g, 3, 4, EdgeKind::Input));
    assert_eq!(g.edges.iter().filter(|e| e.kind == EdgeKind::Canvas).count(), 0);
}

#[test]
fn identifiers_count_up_from_zero() {
    let mut ids = IdSource::new();
    assert_eq!(ids.next_value(), 0);
    let root = fluently(&mut ids);
    assert_eq!(root.uid(), 0);
    assert_eq!(ids.next_value(), 1);
    let first = root.flip_vertical(&mut ids);
    assert_eq!(first.uid(), 1);
    let second = FluentNode::empty(&mut ids);
    assert_eq!(second.uid(), 2);
    assert_eq!(ids.next_value(), 3);
}

#[test]
fn a_source_can_start_anywhere() {
    let mut ids = IdSource::starting_at(41);
    assert_eq!(fluently(&mut ids).uid(), 41);
    assert_eq!(ids.next_value(), 42);
    assert!(!ids.is_exhausted());
    assert!(IdSource::starting_at(u64::MAX).is_exhausted());
    let mut last = IdSource::starting_at(u64::MAX - 1);
    assert_eq!(fluently(&mut last).uid(), u64::MAX - 1);
    assert!(last.is_exhausted());
}

#[test]
fn empty_node_has_nothing() {
    let mut ids = IdSource::new();
    let root = FluentNode::empty(&mut ids);
    assert!(root.is_empty());
    assert!(root.operation().is_none());
    assert!(root.input().is_none());
    assert!(root.canvas().is_none());
}

#[test]
fn to_leaves_out_the_empty_node() {
    let mut ids = IdSource::new();
    let first = fluently(&mut ids).to(&mut ids, Node::Decode { io_id: 7 });
    assert!(!first.is_empty());
    assert_eq!(first.operation(), Some(&Node::Decode { io_id: 7 }));
    assert!(first.input().is_none());
    assert!(first.canvas().is_none());
    assert_eq!(first.uid(), 1);
}

#[test]
fn to_links_the_receiver_as_input() {
    let mut ids = IdSource::new();
    let first = fluently(&mut ids).decode(&mut ids, 0);
    let second = first.to(&mut ids, Node::Rotate90);
    assert_eq!(second.uid(), 2);
    assert_eq!(second.operation(), Some(&Node::Rotate90));
    assert!(second.canvas().is_none());
    let input = second.input().expect("the receiver is the input");
    assert_eq!(input.uid(), 1);
    assert_eq!(input.operation(), Some(&Node::Decode { io_id: 0 }));
}

#[test]
fn to_canvas_links_both_ancestors() {
    let mut ids = IdSource::new();
    let source = fluently(&mut ids).decode(&mut ids, 0);
    let target = fluently(&mut ids).canvas_bgra32(&mut ids, 10, 20, Color::Transparent);
    let source_uid = source.uid();
    let target_uid = target.uid();
    let drawn = source.to_canvas(&mut ids, target, Node::FlipH);
    assert_eq!(drawn.input().map(|n| n.uid()), Some(source_uid));
    assert_eq!(drawn.canvas().map(|n| n.uid()), Some(target_uid));
    assert_eq!(drawn.operation(), Some(&Node::FlipH));
    assert!(drawn.uid() > source_uid && drawn.uid() > target_uid);
}

#[test]
fn to_canvas_leaves_out_an_empty_canvas() {
    let mut ids = IdSource::new();
    let source = fluently(&mut ids).decode(&mut ids, 0);
    let nothing = fluently(&mut ids);
    let drawn = source.to_canvas(&mut ids, nothing, Node::FlipH);
    assert!(drawn.canvas().is_none());
    assert_eq!(drawn.input().map(|n| n.uid()), Some(1));

    let nothing = fluently(&mut ids);
    let target = fluently(&mut ids).decode(&mut ids, 1);
    let target_uid = target.uid();
    let drawn = nothing.to_canvas(&mut ids, target, Node::FlipH);
    assert!(drawn.input().is_none());
    assert_eq!(drawn.canvas().map(|n| n.uid()), Some(target_uid));
}

#[test]
fn branch_keeps_the_identifier() {
    let mut ids = IdSource::new();
    let a = fluently(&mut ids).decode(&mut ids, 3).flip_horizontal(&mut ids);
    let before = ids.next_value();
    let twin = a.branch();
    assert_eq!(ids.next_value(), before);
    assert_eq!(twin.uid(), a.uid());
    assert_eq!(twin.operation(), a.operation());
    assert_eq!(twin.input().map(|n| n.uid()), a.input().map(|n| n.uid()));
    assert!(twin == a);
    let grown = twin.rotate_180(&mut ids);
    assert!(grown != a);
}

#[test]
fn handles_are_equal_by_identifier() {
    let mut ids = IdSource::new();
    let a = fluently(&mut ids).decode(&mut ids, 0);
    let b = fluently(&mut ids).decode(&mut ids, 0);
    assert!(a != b);
    assert!(a == a.branch());
    let mut other = IdSource::starting_at(a.uid());
    let stranger = FluentNode::empty(&mut other);
    assert!(stranger == a);
}

#[test]
fn convenience_constructors_carry_their_operation() {
    let mut ids = IdSource::new();
    let n = fluently(&mut ids).canvas_bgra32(&mut ids, 3, 4, Color::Black);
    assert_eq!(
        n.operation(),
        Some(&Node::CreateCanvas { format: PixelFormat::Bgra32, w: 3, h: 4, color: Color::Black })
    );
    let hex = Color::Srgb(ColorSrgb::Hex(String::from("ff00aa")));
    let n = fluently(&mut ids).create_canvas(&mut ids, 5, 6, PixelFormat::Gray8, hex.clone());
    assert_eq!(
        n.operation(),
        Some(&Node::CreateCanvas { format: PixelFormat::Gray8, w: 5, h: 6, color: hex })
    );
    let n = fluently(&mut ids).decode(&mut ids, -2);
    assert_eq!(n.operation(), Some(&Node::Decode { io_id: -2 }));
    let n = n.flip_vertical(&mut ids);
    assert_eq!(n.operation(), Some(&Node::FlipV));
    let n = n.flip_horizontal(&mut ids);
    assert_eq!(n.operation(), Some(&Node::FlipH));
    let n = n.rotate_90(&mut ids);
    assert_eq!(n.operation(), Some(&Node::Rotate90));
    let n = n.rotate_180(&mut ids);
    assert_eq!(n.operation(), Some(&Node::Rotate180));
    let n = n.rotate_270(&mut ids);
    assert_eq!(n.operation(), Some(&Node::Rotate270));
    let n = n.transpose(&mut ids);
    assert_eq!(n.operation(), Some(&Node::Transpose));
    let hints = ResampleHints { sharpen_percent: Some(15), prefer_1d_twice: None };
    let n = n.resample_2d(&mut ids, 30, 40, Some(Filter::Robidoux), None, Some(hints));
    assert_eq!(
        n.operation(),
        Some(&Node::Resample2D {
            w: 30,
            h: 40,
            down_filter: Some(Filter::Robidoux),
            up_filter: None,
            hints: Some(hints)
        })
    );
    let n = n.encode(&mut ids, 9, EncoderPreset::libpng32());
    assert_eq!(n.operation(), Some(&Node::Encode { preset: EncoderPreset::libpng32(), io_id: 9 }));
    assert_eq!(n.input().map(|i| i.operation().cloned()), Some(Some(Node::Resample2D {
        w: 30,
        h: 40,
        down_filter: Some(Filter::Robidoux),
        up_filter: None,
        hints: Some(hints)
    })));
}

#[test]
fn encoder_presets() {
    assert_eq!(EncoderPreset::libjpegturbo(), EncoderPreset::LibjpegTurbo { quality: Some(100) });
    assert_eq!(
        EncoderPreset::libpng32(),
        EncoderPreset::Libpng { depth: Some(PngBitDepth::Png32), matte: None, zlib_compression: None }
    );
}

#[test]
fn clones_of_operations_are_equal() {
    let matte = Color::Srgb(ColorSrgb::Hex(String::from("00ff00")));
    let op = Node::Encode {
        preset: EncoderPreset::Libpng {
            depth: Some(PngBitDepth::Png24),
            matte: Some(matte),
            zlib_compression: Some(6),
        },
        io_id: 4,
    };
    assert_eq!(op.clone(), op);
    let canvas = Node::CreateCanvas {
        format: PixelFormat::Bgr24,
        w: 1,
        h: 2,
        color: Color::Srgb(ColorSrgb::Hex(String::from("abc"))),
    };
    assert_eq!(canvas.clone(), canvas);
    assert_ne!(canvas.clone(), op);
}

#[test]
fn chain_is_walked_from_sink_to_start() {
    let mut ids = IdSource::new();
    let sink = fluently(&mut ids)
        .decode(&mut ids, 0)
        .flip_vertical(&mut ids)
        .rotate_90(&mut ids)
        .encode(&mut ids, 1, EncoderPreset::libjpegturbo());
    let builder = sink.builder();
    let walk = builder.collect_unique();
    let uids: Vec<u64> = walk.iter().map(|n| n.uid()).collect();
    assert_eq!(uids, vec![4, 3, 2, 1]);
    let edges = builder.collect_edges(walk.as_slice());
    assert_eq!(
        edges,
        vec![(3, 4, EdgeKind::Input), (2, 3, EdgeKind::Input), (1, 2, EdgeKind::Input)]
    );
    assert_eq!(edges.iter().filter(|e| e.1 == 1).count(), 0);
}

#[test]
fn chain_graph_has_one_input_edge_per_step() {
    let mut ids = IdSource::new();
    let sink = fluently(&mut ids)
        .decode(&mut ids, 0)
        .flip_vertical(&mut ids)
        .encode(&mut ids, 1, EncoderPreset::libjpegturbo());
    let g = graph_of(&sink.builder());
    assert_eq!(g.nodes.len(), 3);
    assert_eq!(*node_at(&g, "0"), Node::Decode { io_id: 0 });
    assert_eq!(*node_at(&g, "1"), Node::FlipV);
    assert_eq!(g.edges.len(), 2);
    assert!(has_edge(&g, 0, 1, EdgeKind::Input));
    assert!(has_edge(&g, 1, 2, EdgeKind::Input));
    assert_eq!(g.edges.iter().filter(|e| e.to == 0).count(), 0);
}

#[test]
fn shared_ancestor_is_written_once() {
    let mut ids = IdSource::starting_at(10);
    let a = fluently(&mut ids).decode(&mut ids, 0);
    let left = a.branch().flip_vertical(&mut ids);
    let right = a.branch().flip_horizontal(&mut ids);
    let builder = left.builder().with(right);
    let walk = builder.collect_unique();
    assert_eq!(walk.len(), 3);
    assert_eq!(walk.iter().filter(|n| n.uid() == 11).count(), 1);
    let g = graph_of(&builder);
    assert_eq!(g.nodes.len(), 3);
    assert_eq!(*node_at(&g, "0"), Node::Decode { io_id: 0 });
    assert_eq!(*node_at(&g, "1"), Node::FlipV);
    assert_eq!(*node_at(&g, "2"), Node::FlipH);
    assert_eq!(g.edges.len(), 2);
    assert!(has_edge(&g, 0, 1, EdgeKind::Input));
    assert!(has_edge(&g, 0, 2, EdgeKind::Input));
}

#[test]
fn copy_rect_has_a_canvas_edge_and_an_input_edge() {
    let mut ids = IdSource::new();
    let canvas = fluently(&mut ids).canvas_bgra32(&mut ids, 100, 100, Color::Transparent);
    let donor = fluently(&mut ids).decode(&mut ids, 0);
    let canvas_uid = canvas.uid();
    let donor_uid = donor.uid();
    let copied = canvas.copy_rect_from(&mut ids, donor, 1, 2, 30, 40, 5, 6);
    assert_eq!(
        copied.operation(),
        Some(&Node::CopyRectToCanvas { from_x: 1, from_y: 2, width: 30, height: 40, x: 5, y: 6 })
    );
    assert_eq!(copied.canvas().map(|n| n.uid()), Some(canvas_uid));
    assert_eq!(copied.input().map(|n| n.uid()), Some(donor_uid));
    let copied_uid = copied.uid();
    let builder = copied.builder();
    let walk = builder.collect_unique();
    let edges = builder.collect_edges(walk.as_slice());
    assert_eq!(
        edges,
        vec![(canvas_uid, copied_uid, EdgeKind::Canvas), (donor_uid, copied_uid, EdgeKind::Input)]
    );
    let g = graph_of(&builder);
    let low = canvas_uid;
    let arriving: Vec<&Edge> = g.edges.iter().filter(|e| e.to == copied_uid - low).collect();
    assert_eq!(arriving.len(), 2);
    assert!(has_edge(&g, 0, copied_uid - low, EdgeKind::Canvas));
    assert!(has_edge(&g, donor_uid - low, copied_uid - low, EdgeKind::Input));
    assert_eq!(g.edges.len(), 2);
    assert_eq!(g.nodes.len(), 3);
}

#[test]
fn indices_start_at_zero_whatever_the_identifiers() {
    let mut early = IdSource::new();
    let mut late = IdSource::starting_at(1_000_000);
    let build = |ids: &mut IdSource| {
        let a = fluently(ids).decode(ids, 0).flip_vertical(ids);
        let b = a.branch().encode(ids, 1, EncoderPreset::libjpegturbo());
        let c = a.branch().transpose(ids).encode(ids, 2, EncoderPreset::libpng32());
        graph_of(&b.builder().with(c))
    };
    let first = build(&mut early);
    let second = build(&mut late);
    assert_eq!(*node_at(&first, "0"), Node::Decode { io_id: 0 });
    assert_eq!(*node_at(&second, "0"), Node::Decode { io_id: 0 });
    assert_eq!(first, second);
    let keys: Vec<u64> = second.nodes.iter().map(|e| e.0.parse::<u64>().unwrap()).collect();
    assert_eq!(keys.iter().min(), Some(&0));
}

#[test]
fn writing_twice_gives_the_same_graph() {
    let mut ids = IdSource::starting_at(5);
    let a = fluently(&mut ids).decode(&mut ids, 0);
    let b = a.branch().flip_vertical(&mut ids);
    let c = fluently(&mut ids).canvas_bgra32(&mut ids, 8, 8, Color::Black).copy_rect_from(
        &mut ids,
        a.branch(),
        0,
        0,
        8,
        8,
        0,
        0,
    );
    let builder = b.builder().with(c).with(a);
    let first = graph_of(&builder);
    let second = graph_of(&builder);
    let mut first_nodes: Vec<String> = first.nodes.iter().map(|e| format!("{:?}", e)).collect();
    let mut second_nodes: Vec<String> = second.nodes.iter().map(|e| format!("{:?}", e)).collect();
    first_nodes.sort();
    second_nodes.sort();
    assert_eq!(first_nodes, second_nodes);
    let mut first_edges: Vec<String> = first.edges.iter().map(|e| format!("{:?}", e)).collect();
    let mut second_edges: Vec<String> = second.edges.iter().map(|e| format!("{:?}", e)).collect();
    first_edges.sort();
    second_edges.sort();
    assert_eq!(first_edges, second_edges);
    assert_eq!(first.nodes.len(), 4);
    assert_eq!(first.edges.len(), 3);
}

#[test]
fn every_edge_leads_to_a_larger_index() {
    let mut ids = IdSource::starting_at(77);
    let canvas = fluently(&mut ids).canvas_bgra32(&mut ids, 64, 64, Color::Black);
    let donor = fluently(&mut ids).decode(&mut ids, 0).rotate_270(&mut ids);
    let pasted = canvas.branch().copy_rect_from(&mut ids, donor.branch(), 0, 0, 8, 8, 1, 1);
    let again = pasted.branch().copy_rect_from(&mut ids, donor, 8, 8, 8, 8, 9, 9);
    let out = again.encode(&mut ids, 1, EncoderPreset::libpng32());
    let plain = canvas.encode(&mut ids, 2, EncoderPreset::libjpegturbo());
    let g = graph_of(&out.builder().with(plain).with(pasted));
    assert_eq!(g.nodes.len(), 7);
    assert_eq!(g.edges.len(), 7);
    for e in g.edges.iter() {
        assert!(e.from < e.to);
    }
}

#[test]
fn no_sinks_give_an_empty_graph() {
    let g = graph_of(&FluentGraphBuilder::new());
    assert!(g.nodes.is_empty());
    assert!(g.edges.is_empty());
    assert!(FluentGraphBuilder::new().collect_unique().is_empty());
}

#[test]
fn a_sink_added_twice_is_written_once() {
    let mut ids = IdSource::new();
    let a = fluently(&mut ids).decode(&mut ids, 0).flip_vertical(&mut ids);
    let builder = FluentGraphBuilder::new_with(a.branch()).with(a.branch()).with(a);
    assert_eq!(builder.collect_unique().len(), 2);
    let g = graph_of(&builder);
    assert_eq!(g.nodes.len(), 2);
    assert_eq!(g.edges, vec![Edge { from: 0, to: 1, kind: EdgeKind::Input }]);
}

#[test]
fn walk_starts_at_the_last_sink() {
    let mut ids = IdSource::new();
    let a = fluently(&mut ids).decode(&mut ids, 0);
    let b = a.branch().flip_vertical(&mut ids);
    let c = a.branch().flip_horizontal(&mut ids);
    let builder = b.builder().with(c);
    let uids: Vec<u64> = builder.collect_unique().iter().map(|n| n.uid()).collect();
    assert_eq!(uids, vec![3, 1, 2]);
}

#[test]
fn lowest_uid_of_a_list() {
    let mut ids = IdSource::starting_at(20);
    let a = fluently(&mut ids).decode(&mut ids, 0);
    let b = a.branch().flip_vertical(&mut ids);
    let c = b.branch().flip_horizontal(&mut ids);
    assert_eq!(FluentGraphBuilder::lowest_uid(&[]), None);
    assert_eq!(FluentGraphBuilder::lowest_uid(&[&c, &a, &b]), Some(21));
    assert_eq!(FluentGraphBuilder::lowest_uid(&[&c]), Some(23));
}

#[test]
fn collect_edges_follows_the_list() {
    let mut ids = IdSource::new();
    let a = fluently(&mut ids).decode(&mut ids, 0);
    let b = a.branch().flip_vertical(&mut ids);
    let builder = FluentGraphBuilder::new();
    assert_eq!(builder.collect_edges(&[]), vec![]);
    assert_eq!(builder.collect_edges(&[&a]), vec![]);
    assert_eq!(
        builder.collect_edges(&[&b, &a, &b]),
        vec![(1, 2, EdgeKind::Input), (1, 2, EdgeKind::Input)]
    );
}

#[test]
fn graph_is_written_in_the_order_of_the_walk() {
    let mut ids = IdSource::starting_at(100);
    let canvas = fluently(&mut ids).canvas_bgra32(&mut ids, 4, 4, Color::Black);
    let donor = fluently(&mut ids).decode(&mut ids, 0);
    let copied = canvas.copy_rect_from(&mut ids, donor, 0, 0, 4, 4, 0, 0);
    let out = copied.branch().encode(&mut ids, 1, EncoderPreset::libjpegturbo());
    let builder = copied.builder().with(out);
    let uids: Vec<u64> = builder.collect_unique().iter().map(|n| n.uid()).collect();
    assert_eq!(uids, vec![105, 104, 103, 101]);
    let g = graph_of(&builder);
    let keys: Vec<&str> = g.nodes.iter().map(|e| e.0.as_str()).collect();
    assert_eq!(keys, vec!["4", "3", "2", "0"]);
    assert_eq!(
        g.edges,
        vec![
            Edge { from: 3, to: 4, kind: EdgeKind::Input },
            Edge { from: 0, to: 3, kind: EdgeKind::Canvas },
            Edge { from: 2, to: 3, kind: EdgeKind::Input },
        ]
    );
}

#[test]
fn an_empty_sink_is_found() {
    let mut ids = IdSource::new();
    let a = fluently(&mut ids).decode(&mut ids, 0);
    let nothing = fluently(&mut ids);
    assert!(!FluentGraphBuilder::new().has_empty_sink());
    assert!(!a.branch().builder().has_empty_sink());
    assert!(nothing.branch().builder().has_empty_sink());
    assert!(a.builder().with(nothing).has_empty_sink());
}

#[test]
fn walk_of_an_empty_sink_is_the_sink() {
    let mut ids = IdSource::starting_at(9);
    let nothing = fluently(&mut ids);
    let builder = nothing.builder();
    let walk = builder.collect_unique();
    assert_eq!(walk.len(), 1);
    assert!(walk[0].is_empty());
    assert_eq!(walk[0].uid(), 9);
    assert_eq!(builder.collect_edges(walk.as_slice()), vec![]);
    assert_eq!(FluentGraphBuilder::lowest_uid(walk.as_slice()), Some(9));
}
