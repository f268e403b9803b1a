use ecs::draw::{DrawCommand, DrawQueue, IndirectDraw};
use ecs::frames::{FPSCounter, FrameIndex};
use ecs::queues::{CpuRingBuffer, CpuRingQueue};
use ecs::registries::{RegisterKey, Registry};

struct Camera;
struct Model;

#[test]
fn registry_keeps_the_first_value_of_a_key() {
    let mut registry: Registry<u32> = Registry::default();
    let camera = RegisterKey::from_label::<Camera>("camera");
    registry.register_key(camera, 1);
    registry.register_key(RegisterKey::from_label::<Camera>("camera"), 2);
    assert_eq!(registry.get(&camera), Some(&1));
    assert_eq!(registry.keys().len(), 1);
}

#[test]
fn registry_keys_differ_by_type_or_label() {
    let mut registry: Registry<&str> = Registry::default();
    registry.register_key(RegisterKey::from_label::<Camera>("uniform"), "camera uniform");
    registry.register_key(RegisterKey::from_label::<Model>("uniform"), "model uniform");
    registry.register_key(RegisterKey::from_label::<Camera>("bindings"), "camera bindings");
    assert_eq!(registry.keys().len(), 3);
    assert_eq!(registry.get(&RegisterKey::from_label::<Model>("uniform")), Some(&"model uniform"));
    assert_eq!(registry.get(&RegisterKey::from_label::<Camera>("bindings")), Some(&"camera bindings"));
    assert_eq!(registry.get(&RegisterKey::from_label::<Model>("bindings")), None);
    assert_eq!(registry.values(), &["camera uniform", "model uniform", "camera bindings"]);
    assert!(RegisterKey::from_label::<Camera>("a").same_as(&RegisterKey::from_label::<Camera>("a")));
    assert!(!RegisterKey::from_label::<Camera>("a").same_as(&RegisterKey::from_label::<Camera>("b")));
}

#[test]
fn registry_values_can_be_changed_in_place() {
    let mut registry: Registry<u32> = Registry::default();
    let a = RegisterKey::from_label::<Camera>("a");
    let b = RegisterKey::from_label::<Camera>("b");
    registry.register_key(a, 1);
    registry.register_key(b, 2);
    if let Some(v) = registry.get_mut(&b) {
        *v = 20;
    }
    assert!(registry.get_mut(&RegisterKey::from_label::<Model>("a")).is_none());
    for v in registry.values_mut() {
        *v += 1;
    }
    assert_eq!(registry.values(), &[2, 21]);
    assert_eq!(registry.keys(), &[a, b]);
}

#[test]
fn ring_queue_keeps_three_independent_slots() {
    let mut queue = CpuRingQueue::new(vec![1u32]);
    queue.get_write(1).push(2);
    assert_eq!(queue.get_read(0), &vec![1]);
    assert_eq!(queue.get_read(1), &vec![1, 2]);
    assert_eq!(queue.get_read(2), &vec![1]);
    queue.clear(1);
    assert!(queue.get_read(1).is_empty());
    assert_eq!(queue.get_read(2), &vec![1]);
}

#[test]
fn ring_buffer_keeps_three_independent_slots() {
    let mut buffer = CpuRingBuffer::new(5u64);
    *buffer.get_write(2) = 9;
    assert_eq!(*buffer.get_read(0), 5);
    assert_eq!(*buffer.get_read(1), 5);
    assert_eq!(*buffer.get_read(2), 9);
}

#[test]
fn frame_index_wraps_round() {
    let mut frame = FrameIndex::new(3);
    assert_eq!(frame.index(), 0);
    frame.advance();
    assert_eq!(frame.index(), 1);
    frame.advance();
    assert_eq!(frame.index(), 2);
    frame.advance();
    assert_eq!(frame.index(), 0);
    let mut single = FrameIndex::new(1);
    single.advance();
    assert_eq!(single.index(), 0);
}

#[test]
fn fps_counter_reports_once_a_second_has_passed() {
    let mut counter = FPSCounter::default();
    assert_eq!(counter.tick(10_000_000), None);
    assert_eq!(counter.tick(500_000_000), None);
    assert_eq!(counter.tick(999_999_999), None);
    assert_eq!(counter.tick(1_000_000_000), Some(4));
    assert_eq!(counter.tick(0), None);
    assert_eq!(counter.tick(2_000_000_000), Some(2));
}

#[test]
fn draw_queue_clears() {
    let mut queue = DrawQueue::new();
    queue.opaque.push(DrawCommand { entity_id: 3 });
    queue.opaque.push(DrawCommand { entity_id: 4 });
    assert_eq!(queue.opaque.len(), 2);
    queue.clear();
    assert!(queue.opaque.is_empty());
}

#[test]
fn indirect_draw_starts_empty() {
    let draw = IndirectDraw::_new();
    assert_eq!(draw, IndirectDraw::default());
    assert_eq!(draw.index_count, 0);
    assert_eq!(draw.instance_count, 0);
    assert_eq!(draw.first_index, 0);
    assert_eq!(draw.base_vertex, 0);
    assert_eq!(draw.first_instance, 0);
}
