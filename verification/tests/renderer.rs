use wgpu_mc::allocator::{RangeAllocator, SpaceError};
use wgpu_mc::buffer::ChunkBuffer;
use wgpu_mc::channel::UpdateChannel;
use wgpu_mc::chunk::{BakedLayer, ChunkPos, LAYER_COUNT};
use wgpu_mc::range::Span;
use wgpu_mc::storage::SectionStorage;
use wgpu_mc::{HasWindowSize, Scene, WindowSize, WmRenderer};

fn layer(vertices: Vec<u8>, indices: Vec<u8>) -> BakedLayer {
    BakedLayer { vertices, indices }
}

fn pos(x: i32, y: i32, z: i32) -> ChunkPos {
    ChunkPos { x, y, z }
}

fn overlap(a: Span, b: Span) -> bool {
    !(a.start + a.len <= b.start || b.start + b.len <= a.start)
}

fn live_spans(storage: &SectionStorage, positions: &[ChunkPos]) -> Vec<Span> {
    let mut spans = Vec::new();
    for p in positions {
        if let Some(sec) = storage.get(*p) {
            for slot in &sec.layers {
                if let Some(rd) = slot {
                    spans.push(rd.vertex_range);
                    spans.push(rd.index_range);
                }
            }
        }
    }
    spans
}

#[test]
fn allocator_first_fit_reuse_and_exhaustion() {
    let mut alloc = RangeAllocator::new(8);
    let a = alloc.allocate(5).unwrap();
    assert_eq!(a.start, 0);
    assert_eq!(a.len, 5);
    // 3 bytes of headroom are left and nothing is free
    assert_eq!(alloc.allocate(4), Err(SpaceError::Exhausted));
    let b = alloc.allocate(3).unwrap();
    assert_eq!(b.start, 5);
    assert_eq!(alloc.capacity(), 8);
    assert_eq!(alloc.allocate(1), Err(SpaceError::Exhausted));
    alloc.release(a);
    // the vacated range is reused, first fit, split on demand
    let c = alloc.allocate(2).unwrap();
    assert_eq!(c.start, 0);
    let d = alloc.allocate(3).unwrap();
    assert_eq!(d.start, 2);
    assert_eq!(alloc.allocate(6), Err(SpaceError::Exhausted));
    assert_eq!(alloc.max_capacity(), 8);
}

#[test]
fn storage_live_ranges_never_overlap() {
    let mut storage = SectionStorage::new(4096);
    let positions = [pos(0, 0, 0), pos(1, 0, 0), pos(0, -3, 7)];
    storage
        .replace(positions[0], &vec![layer(vec![1; 5], vec![2; 3])])
        .unwrap();
    storage
        .replace(
            positions[1],
            &vec![layer(vec![3; 4], vec![4; 4]), layer(vec![5; 2], vec![6; 2])],
        )
        .unwrap();
    storage
        .replace(positions[2], &vec![layer(vec![7; 2], vec![8; 2])])
        .unwrap();
    // replace one position again so vacated ranges get recycled
    storage
        .replace(positions[0], &vec![layer(vec![9; 6], vec![10; 6])])
        .unwrap();
    let spans = live_spans(&storage, &positions);
    assert_eq!(spans.len(), 8);
    for i in 0..spans.len() {
        for k in 0..spans.len() {
            if i != k {
                assert!(!overlap(spans[i], spans[k]));
            }
        }
    }
}

#[test]
fn replace_twice_fully_supersedes() {
    let mut storage = SectionStorage::new(4096);
    let p = pos(2, 1, 0);
    storage
        .replace(p, &vec![layer(vec![1; 8], vec![2; 4])])
        .unwrap();
    assert_eq!(storage.capacity(), 12);
    storage
        .replace(p, &vec![layer(vec![3; 2], vec![4; 3])])
        .unwrap();
    let sec = storage.get(p).unwrap();
    assert_eq!(sec.layers.len(), LAYER_COUNT);
    let rd = sec.layers[0].unwrap();
    assert_eq!(rd.vertex_range.len, 2);
    assert_eq!(rd.index_range.len, 3);
    for j in 1..LAYER_COUNT {
        assert!(sec.layers[j].is_none());
    }
    // the superseded ranges were freed: the second layout fits in them
    // and the buffer did not grow
    assert_eq!(storage.capacity(), 12);
}

#[test]
fn replace_with_empty_layers_frees_everything() {
    let mut storage = SectionStorage::new(4096);
    let p = pos(0, 0, 1);
    let q = pos(0, 0, 2);
    storage
        .replace(p, &vec![layer(vec![1, 2, 3, 4], vec![5, 6, 7])])
        .unwrap();
    assert_eq!(storage.capacity(), 7);
    storage.replace(p, &vec![]).unwrap();
    let sec = storage.get(p).unwrap();
    assert_eq!(sec.layers.len(), LAYER_COUNT);
    for j in 0..LAYER_COUNT {
        assert!(sec.layers[j].is_none());
    }
    // an equal-sized request reuses the vacated ranges in place
    let sec_q = storage
        .replace(q, &vec![layer(vec![9, 9, 9, 9], vec![8, 8, 8])])
        .unwrap();
    let rd = sec_q.layers[0].unwrap();
    assert_eq!(rd.vertex_range.start, 0);
    assert_eq!(rd.vertex_range.len, 4);
    assert_eq!(rd.index_range.start, 4);
    assert_eq!(rd.index_range.len, 3);
    assert_eq!(storage.capacity(), 7);
}

#[test]
fn layer_without_geometry_gets_no_range() {
    let mut storage = SectionStorage::new(4096);
    let p = pos(5, 5, 5);
    let sec = storage
        .replace(
            p,
            &vec![
                layer(vec![], vec![1, 2]),
                layer(vec![1, 2], vec![]),
                layer(vec![1], vec![2]),
            ],
        )
        .unwrap();
    assert!(sec.layers[0].is_none());
    assert!(sec.layers[1].is_none());
    assert!(sec.layers[2].is_some());
    assert!(sec.layers[3].is_none());
}

#[test]
fn storage_refuses_when_buffer_cannot_grow() {
    let mut storage = SectionStorage::new(4);
    let p = pos(0, 0, 0);
    let r = storage.replace(p, &vec![layer(vec![1, 2, 3], vec![4, 5])]);
    assert_eq!(r.err(), Some(SpaceError::Exhausted));
    // the refused position holds no section afterwards
    assert!(storage.get(p).is_none());
    // a request that fits is still served
    storage
        .replace(p, &vec![layer(vec![1, 2], vec![3])])
        .unwrap();
}

#[test]
fn drain_when_empty_yields_nothing_and_changes_nothing() {
    let mut renderer = WmRenderer::new();
    let mut scene = Scene::new(1024);
    renderer
        .chunk_update_queue
        .send(pos(1, 1, 1), vec![layer(vec![1, 2], vec![3])]);
    renderer.submit_chunk_updates(&mut scene).unwrap();
    let before_cap = scene.section_storage.capacity();
    let before_buf = scene.chunk_buffer.data.clone();
    let before_sec = scene.section_storage.get(pos(1, 1, 1)).unwrap();

    // queue is now empty: a second submit is a no-op
    assert_eq!(renderer.chunk_update_queue.len(), 0);
    renderer.submit_chunk_updates(&mut scene).unwrap();
    assert_eq!(scene.section_storage.capacity(), before_cap);
    assert_eq!(scene.chunk_buffer.data, before_buf);
    let after_sec = scene.section_storage.get(pos(1, 1, 1)).unwrap();
    assert_eq!(after_sec.layers, before_sec.layers);
}

#[test]
fn channel_preserves_enqueue_order() {
    let mut channel = UpdateChannel::new();
    channel.send(pos(1, 0, 0), vec![layer(vec![1], vec![1])]);
    channel.send(pos(2, 0, 0), vec![layer(vec![2], vec![2])]);
    channel.send(pos(3, 0, 0), vec![layer(vec![3], vec![3])]);
    let msgs = channel.drain();
    assert_eq!(msgs.len(), 3);
    assert_eq!(msgs[0].0, pos(1, 0, 0));
    assert_eq!(msgs[1].0, pos(2, 0, 0));
    assert_eq!(msgs[2].0, pos(3, 0, 0));
    assert_eq!(msgs[1].1[0].vertices, vec![2]);
    assert_eq!(channel.len(), 0);
    assert_eq!(channel.drain().len(), 0);
}

#[test]
fn updates_apply_in_enqueue_order() {
    let mut renderer = WmRenderer::new();
    let mut scene = Scene::new(1024);
    let p = pos(0, 0, 0);
    for n in 1..=3u8 {
        renderer
            .chunk_update_queue
            .send(p, vec![layer(vec![n; n as usize], vec![n; 2])]);
    }
    renderer.submit_chunk_updates(&mut scene).unwrap();
    let sec = scene.section_storage.get(p).unwrap();
    let rd = sec.layers[0].unwrap();
    // the last enqueued update decides the section
    assert_eq!(rd.vertex_range.len, 3);
    let s = rd.vertex_range.start;
    assert_eq!(&scene.chunk_buffer.data[s..s + 3], &[3, 3, 3]);
}

#[test]
fn animated_resource_lazy_create_reuse_republish() {
    let mut renderer = WmRenderer::new();
    assert!(renderer.mc.animated_block_buffer.is_none());
    assert!(renderer.mc.animated_block_bind_group.is_none());

    renderer.upload_animated_block_buffer(vec![0; 8]);
    let first = renderer.mc.animated_block_buffer.as_ref().unwrap();
    let first_id = first.id;
    assert_eq!(first.contents.len(), 8);
    assert_eq!(
        renderer.mc.animated_block_bind_group.as_ref().unwrap().buffer_id,
        first_id
    );

    // a smaller upload reuses the same buffer in place
    renderer.upload_animated_block_buffer(vec![1; 4]);
    let second = renderer.mc.animated_block_buffer.as_ref().unwrap();
    assert_eq!(second.id, first_id);
    assert_eq!(second.contents, vec![1, 1, 1, 1, 0, 0, 0, 0]);

    // a larger upload republishes buffer and binding together
    renderer.upload_animated_block_buffer(vec![2; 16]);
    let third = renderer.mc.animated_block_buffer.as_ref().unwrap();
    assert_ne!(third.id, first_id);
    assert_eq!(third.contents, vec![2; 16]);
    assert_eq!(
        renderer.mc.animated_block_bind_group.as_ref().unwrap().buffer_id,
        third.id
    );
}

#[test]
fn end_to_end_single_update() {
    let mut renderer = WmRenderer::new();
    let mut scene = Scene::new(1024);
    renderer
        .chunk_update_queue
        .send(pos(0, 0, 0), vec![layer(vec![1, 2, 3, 4], vec![0, 1, 2])]);
    renderer.submit_chunk_updates(&mut scene).unwrap();

    let sec = scene.section_storage.get(pos(0, 0, 0)).unwrap();
    let rd = sec.layers[0].unwrap();
    assert_eq!(rd.vertex_range.len, 4);
    assert_eq!(rd.index_range.len, 3);
    for j in 1..LAYER_COUNT {
        assert!(sec.layers[j].is_none());
    }
    let vs = rd.vertex_range.start;
    let is_ = rd.index_range.start;
    assert_eq!(&scene.chunk_buffer.data[vs..vs + 4], &[1, 2, 3, 4]);
    assert_eq!(&scene.chunk_buffer.data[is_..is_ + 3], &[0, 1, 2]);
}

#[test]
fn end_to_end_second_update_wins() {
    let mut renderer = WmRenderer::new();
    let mut scene = Scene::new(1024);
    let p = pos(4, -2, 9);
    renderer
        .chunk_update_queue
        .send(p, vec![layer(vec![1, 2, 3, 4, 5, 6, 7, 8], vec![9, 9, 9, 9])]);
    renderer
        .chunk_update_queue
        .send(p, vec![layer(vec![7, 7], vec![8, 8, 8])]);
    renderer.submit_chunk_updates(&mut scene).unwrap();

    let sec = scene.section_storage.get(p).unwrap();
    let rd = sec.layers[0].unwrap();
    // only the final, smaller layer is referenced by the section
    assert_eq!(rd.vertex_range.len, 2);
    assert_eq!(rd.index_range.len, 3);
    let vs = rd.vertex_range.start;
    let is_ = rd.index_range.start;
    assert_eq!(&scene.chunk_buffer.data[vs..vs + 2], &[7, 7]);
    assert_eq!(&scene.chunk_buffer.data[is_..is_ + 3], &[8, 8, 8]);
}

#[test]
fn chunk_buffer_write_extends_with_zeroes() {
    let mut buf = ChunkBuffer::new();
    buf.write_at(2, &vec![5, 6]);
    assert_eq!(buf.data, vec![0, 0, 5, 6]);
    buf.write_at(0, &vec![1]);
    assert_eq!(buf.data, vec![1, 0, 5, 6]);
}

struct FixedWindow;

impl HasWindowSize for FixedWindow {
    fn get_window_size(&self) -> WindowSize {
        WindowSize { width: 800, height: 600 }
    }
}

#[test]
fn window_size_report() {
    let w = FixedWindow;
    let size = w.get_window_size();
    assert_eq!(size.width, 800);
    assert_eq!(size.height, 600);
}
