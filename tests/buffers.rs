use maze_generator::ascii_buffer::FrameBuffer as CellBuffer;
use maze_generator::ascii_scene::Scene as CellScene;
use maze_generator::buffer::FrameBuffer;
use maze_generator::scene::Scene;

#[test]
fn new_buffer_is_blank() {
    let b = FrameBuffer::new(2, 3);
    assert_eq!(b.pixels, vec![' '; 6]);
    assert_eq!(b.display(), "   \n   \n");
    let d = FrameBuffer::default();
    assert_eq!((d.height, d.width, d.pixels.len()), (10, 10, 100));
}

#[test]
fn set_get_fill_clear() {
    let mut b = FrameBuffer::new(3, 3);
    b.set(1, 2, 'x');
    assert_eq!(b.get(1, 2), Some(&'x'));
    assert_eq!(b.pixels[5], 'x');
    assert_eq!(b.get(3, 0), None);
    assert_eq!(b.display(), "   \n  x\n   \n");
    b.fill('#');
    assert!(b.pixels.iter().all(|&c| c == '#'));
    b.clear();
    assert!(b.pixels.iter().all(|&c| c == ' '));
}

#[test]
fn scene_draw_shows_back_buffer() {
    let mut s = Scene::new(2, 2);
    s.draw(|b: &mut FrameBuffer| b.set(0, 1, '*'));
    assert_eq!(s.display(), " *\n  \n");
    assert_eq!(s.write_buf.pixels, vec![' '; 4]);
    s.write_buf.set(1, 0, 'o');
    s.swap_cloning();
    assert_eq!(s.display(), "  \no \n");
    assert_eq!(s.read_buf.pixels, s.write_buf.pixels);
    let d = Scene::default();
    assert_eq!((d.height, d.width), (10, 10));
}

#[test]
fn cell_buffer_toggle_and_draw() {
    let white = "\x1B[47m  \x1B[0m";
    let black = "\x1B[40m  \x1B[0m";
    let b = CellBuffer::new(2, 2).toggle(0, 1);
    assert_eq!(b.draw(), format!("{black}{white}\n{black}{black}\n"));
    let b = b.toggle(0, 1);
    assert_eq!(b.draw(), format!("{black}{black}\n{black}{black}\n"));
    let b = b.toggle(1, 1).clear();
    assert_eq!(b.draw(), format!("{black}{black}\n{black}{black}\n"));
}

fn light_corner(b: &mut CellBuffer) {
    let t = std::mem::take(b);
    *b = t.toggle(0, 0);
}

#[test]
fn cell_scene_draw_and_copy() {
    let white = "\x1B[47m  \x1B[0m";
    let black = "\x1B[40m  \x1B[0m";
    let mut s = CellScene::new(1, 2);
    s.draw(light_corner);
    assert_eq!(s.display(), format!("{black}{black}\n"));
    assert_eq!(s.write_buf.draw(), format!("{white}{black}\n"));
    s.swap_cloning();
    assert_eq!(s.display(), format!("{white}{black}\n"));
    let d = CellScene::default();
    assert_eq!(d.display().matches('\n').count(), 10);
}
