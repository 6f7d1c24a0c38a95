use pddb::graphics::{
    BulkRead, ClipObject, ClipObjectType, DrawStyle, Gid, Line, PixelColor, Point, Rectangle,
    BULK_READ_LEN,
};

#[test]
fn gid_keeps_its_words() {
    let g = Gid::new([1, 2, 3, 0xffff_ffff]);
    assert_eq!(g.gid(), [1, 2, 3, 0xffff_ffff]);
    assert_eq!(g, Gid::new([1, 2, 3, 0xffff_ffff]));
    assert_ne!(g, Gid::new([1, 2, 3, 4]));
}

#[test]
fn bulk_read_default_is_a_full_buffer_of_zeros() {
    let b = BulkRead::default();
    assert_eq!(b.buf.len(), BULK_READ_LEN);
    assert!(b.buf.iter().all(|&x| x == 0));
    assert_eq!(b.from_offset, 0);
    assert_eq!(b.len, 7936);
}

#[test]
fn clip_object_carries_its_shape() {
    let style = DrawStyle { fill_color: None, stroke_color: Some(PixelColor::Dark), stroke_width: 1 };
    let clip = Rectangle { tl: Point { x: 0, y: 0 }, br: Point { x: 10, y: 20 }, style };
    let line = Line { start: Point { x: 1, y: 2 }, end: Point { x: 3, y: 4 }, style };
    let a = ClipObject { clip, obj: ClipObjectType::Line(line) };
    let b = ClipObject { clip, obj: ClipObjectType::XorLine(line) };
    assert_eq!(a, a);
    assert_ne!(a, b);
    assert_eq!(a.clip.br, Point { x: 10, y: 20 });
}
