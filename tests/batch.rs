use hyst_scene::batch::{BatchRenderer, BufferError, IndirectDraw, DEFAULT_CAPACITY};
use hyst_scene::record::{unorm32_to_unorm8, Color, InstanceRecord, Rect, RECORD_SIZE};
use hyst_scene::render_state::{
    Face, FrontFace, PolygonMode, PrimitiveState, ShaderRenderMethod, Topology, LINE, POINT,
    TRIANGLE_STRIP,
};

fn rect(x: f32, y: f32, w: f32, h: f32) -> Rect {
    Rect { x: x.to_bits(), y: y.to_bits(), w: w.to_bits(), h: h.to_bits() }
}

fn color(r: f32, g: f32, b: f32, a: f32) -> Color {
    Color { r: r.to_bits(), g: g.to_bits(), b: b.to_bits(), a: a.to_bits() }
}

fn record(n: f32) -> InstanceRecord {
    InstanceRecord::new(rect(n, n + 1.0, 10.0, 20.0), color(1.0, 0.0, 0.0, 1.0))
}

#[test]
fn new_batch_is_empty_with_default_capacity() {
    let b = BatchRenderer::new();
    assert_eq!(b.len(), 0);
    assert!(b.is_empty());
    assert_eq!(b.capacity(), 128);
    assert_eq!(DEFAULT_CAPACITY, 128);
}

#[test]
fn push_returns_consecutive_slots() {
    let mut b = BatchRenderer::new();
    assert_eq!(b.push(record(0.0), 7), Ok(0));
    assert_eq!(b.push(record(1.0), 8), Ok(1));
    assert_eq!(b.push(record(2.0), 9), Ok(2));
    assert_eq!(b.len(), 3);
    assert_eq!(b.get(1), Some(record(1.0)));
    assert_eq!(b.owner(2), Some(9));
    assert_eq!(b.get(3), None);
    assert_eq!(b.owner(3), None);
}

#[test]
fn live_count_is_pushes_minus_removes() {
    let mut b = BatchRenderer::new();
    for i in 0..10u64 {
        b.push(record(i as f32), 100 + i).unwrap();
    }
    b.remove(3).unwrap();
    b.remove(0).unwrap();
    b.remove(7).unwrap();
    assert_eq!(b.len(), 7);
    let mut owners: Vec<u64> = (0..b.len()).map(|s| b.owner(s).unwrap()).collect();
    owners.sort();
    owners.dedup();
    assert_eq!(owners.len(), 7);
    assert_eq!(b.owner(7), None);
}

#[test]
fn remove_moves_last_into_the_gap() {
    let mut b = BatchRenderer::new();
    b.push(record(0.0), 10).unwrap();
    b.push(record(1.0), 11).unwrap();
    b.push(record(2.0), 12).unwrap();
    assert_eq!(b.remove(0), Ok(record(0.0)));
    assert_eq!(b.len(), 2);
    assert_eq!(b.get(0), Some(record(2.0)));
    assert_eq!(b.owner(0), Some(12));
    assert_eq!(b.get(1), Some(record(1.0)));
}

#[test]
fn remove_only_element_then_push_reuses_slot_zero() {
    let mut b = BatchRenderer::new();
    let slot = b.push(record(5.0), 1).unwrap();
    assert_eq!(slot, 0);
    assert_eq!(b.remove(slot), Ok(record(5.0)));
    assert_eq!(b.len(), 0);
    assert_eq!(b.push(record(6.0), 2), Ok(0));
}

#[test]
fn remove_out_of_range_is_an_error() {
    let mut b = BatchRenderer::new();
    assert_eq!(b.remove(0), Err(BufferError::OutOfRange { slot: 0, len: 0 }));
    b.push(record(0.0), 1).unwrap();
    assert_eq!(b.remove(4), Err(BufferError::OutOfRange { slot: 4, len: 1 }));
    assert_eq!(b.len(), 1);
}

#[test]
fn update_out_of_range_is_an_error() {
    let mut b = BatchRenderer::new();
    b.push(record(0.0), 1).unwrap();
    assert_eq!(b.update(1, record(9.0)), Err(BufferError::OutOfRange { slot: 1, len: 1 }));
    assert_eq!(b.get(0), Some(record(0.0)));
}

#[test]
fn update_then_read_slot_bytes() {
    let mut b = BatchRenderer::new();
    b.push(record(0.0), 1).unwrap();
    b.push(record(1.0), 2).unwrap();
    let r = InstanceRecord::new(rect(3.0, 4.0, 5.0, 6.0), color(0.5, 0.25, 0.125, 1.0));
    b.update(1, r).unwrap();
    let bytes = b.slot_bytes(1).unwrap();
    assert_eq!(bytes, r.to_bytes());
    let all = b.to_bytes();
    assert_eq!(all.len(), 2 * RECORD_SIZE);
    assert_eq!(&all[RECORD_SIZE..2 * RECORD_SIZE], &bytes[..]);
    assert_eq!(b.slot_bytes(2), Err(BufferError::OutOfRange { slot: 2, len: 2 }));
}

#[test]
fn record_bytes_are_little_endian_words() {
    let r = InstanceRecord::new(
        Rect { x: 0x0403_0201, y: 0, w: 0xffff_ffff, h: 7 },
        Color { r: 1, g: 2, b: 3, a: 0x8000_0000 },
    );
    let bytes = r.to_bytes();
    assert_eq!(bytes.len(), 32);
    assert_eq!(&bytes[0..4], &[1, 2, 3, 4]);
    assert_eq!(&bytes[4..8], &[0, 0, 0, 0]);
    assert_eq!(&bytes[8..12], &[255, 255, 255, 255]);
    assert_eq!(&bytes[12..16], &[7, 0, 0, 0]);
    assert_eq!(&bytes[28..32], &[0, 0, 0, 128]);
    let f = rect(400.0, 0.0, 0.0, 0.0);
    assert_eq!(f.x.to_le_bytes(), 400.0f32.to_le_bytes());
}

#[test]
fn resize_keeps_colour() {
    let mut b = BatchRenderer::new();
    b.push(record(0.0), 1).unwrap();
    let nr = rect(1.0, 2.0, 3.0, 4.0);
    b.resize(0, nr).unwrap();
    assert_eq!(b.get(0), Some(InstanceRecord::new(nr, color(1.0, 0.0, 0.0, 1.0))));
    assert!(b.resize(1, nr).is_err());
}

#[test]
fn capacity_doubles_when_full_and_keeps_slots() {
    let mut b = BatchRenderer::new();
    for i in 0..128u64 {
        assert_eq!(b.push(record(i as f32), i), Ok(i));
    }
    assert_eq!(b.capacity(), 128);
    assert_eq!(b.push(record(128.0), 128), Ok(128));
    assert_eq!(b.capacity(), 256);
    for i in 0..129u64 {
        assert_eq!(b.get(i), Some(record(i as f32)));
        assert_eq!(b.owner(i), Some(i));
    }
}

#[test]
fn pop_drops_last_and_reports_new_len() {
    let mut b = BatchRenderer::new();
    assert_eq!(b.pop(), 0);
    b.push(record(0.0), 1).unwrap();
    b.push(record(1.0), 2).unwrap();
    assert_eq!(b.pop(), 1);
    assert_eq!(b.get(1), None);
    assert_eq!(b.get(0), Some(record(0.0)));
}

#[test]
fn prepare_for_lists_one_draw_per_slot() {
    let mut b = BatchRenderer::new();
    b.push(record(0.0), 1).unwrap();
    b.push(record(1.0), 2).unwrap();
    let draws = b.prepare_for(&vec![1, 0], 6).unwrap();
    assert_eq!(
        draws,
        vec![
            IndirectDraw { index_count: 6, instance_count: 1, first_index: 0, first_instance: 1, base_vertex: 0 },
            IndirectDraw { index_count: 6, instance_count: 1, first_index: 0, first_instance: 0, base_vertex: 0 },
        ]
    );
    assert_eq!(b.prepare_for(&vec![0, 2], 6), Err(BufferError::OutOfRange { slot: 2, len: 2 }));
}

#[test]
fn unorm_conversion_rounds_to_nearest() {
    assert_eq!(unorm32_to_unorm8(0), 0);
    assert_eq!(unorm32_to_unorm8(u32::MAX), 255);
    assert_eq!(unorm32_to_unorm8(0x8000_0000), 128);
    assert_eq!(unorm32_to_unorm8(0x7fff_ffff), 127);
}

#[test]
fn render_state_decodes_each_field() {
    assert_eq!(
        ShaderRenderMethod::triangle_ccw_back().get_primitive_state(),
        PrimitiveState {
            topology: Topology::TriangleList,
            front_face: FrontFace::Ccw,
            cull_mode: Face::Back,
            polygon_mode: PolygonMode::Fill,
        }
    );
    assert_eq!(
        ShaderRenderMethod { mask: 0 }.get_primitive_state(),
        PrimitiveState {
            topology: Topology::PointList,
            front_face: FrontFace::Cw,
            cull_mode: Face::Front,
            polygon_mode: PolygonMode::Fill,
        }
    );
    assert_eq!(
        ShaderRenderMethod { mask: TRIANGLE_STRIP + LINE }.get_primitive_state().polygon_mode,
        PolygonMode::Line
    );
    assert_eq!(
        ShaderRenderMethod { mask: TRIANGLE_STRIP + POINT }.get_primitive_state().topology,
        Topology::TriangleStrip
    );
    assert_eq!(ShaderRenderMethod { mask: POINT }.get_primitive_state().polygon_mode, PolygonMode::Point);
}

#[test]
fn batch_from_instances_takes_their_count_as_capacity() {
    let b = BatchRenderer::from_instances(vec![(record(0.0), 4), (record(1.0), 5), (record(2.0), 6)]);
    assert_eq!(b.len(), 3);
    assert_eq!(b.capacity(), 3);
    assert_eq!(b.get(2), Some(record(2.0)));
    assert_eq!(b.owner(0), Some(4));
    let e = BatchRenderer::from_instances(Vec::new());
    assert_eq!(e.capacity(), 128);
    let mut g = BatchRenderer::from_instances(vec![(record(0.0), 1)]);
    assert_eq!(g.push(record(1.0), 2), Ok(1));
    assert_eq!(g.capacity(), 2);
}
