use polaros::gui::compositor::{Compositor, Layer};
use polaros::gui::cursor::Cursor;
use polaros::gui::event::{Event, EventQueue, KeyCode, MouseButton};
use polaros::gui::font::{draw_char, draw_text, text_width};
use polaros::gui::framebuffer::Framebuffer;
use polaros::gui::palette::{lerp, load_palette, ramp, rgb};
use polaros::gui::primitives::{draw_hline, draw_line, draw_rect, draw_vline, fill_rect};
use polaros::gui::session::{terminal_window, IdCounter};
use polaros::gui::theme::default_dark_theme;
use polaros::gui::wallpaper::{fill_polygon, number_span};
use polaros::gui::widget::button::{Button, ButtonState};
use polaros::gui::widget::desktop::{format_time, Desktop};
use polaros::gui::widget::label::Label;
use polaros::gui::widget::panel::{Panel, PanelChild};
use polaros::gui::widget::terminal::TerminalWidget;
use polaros::gui::widget::window::Window;
use polaros::gui::widget::{EventResponse, Rect, Widget};

fn rt(r: Rect) -> (i16, i16, u16, u16) {
    (r.x, r.y, r.w, r.h)
}

fn px(fb: &Framebuffer, x: i16, y: i16) -> u8 {
    fb.get_pixel(x, y)
}

#[test]
fn pixels_are_set_read_and_clipped() {
    let mut fb = Framebuffer::new();
    assert!(fb.as_bytes().iter().all(|&b| b == 0));
    assert_eq!(fb.as_bytes().len(), 64000);
    fb.set_pixel(3, 2, 7);
    assert_eq!(px(&fb, 3, 2), 7);
    assert_eq!(fb.as_bytes()[2 * 320 + 3], 7);
    fb.set_pixel(-1, 0, 9);
    fb.set_pixel(320, 0, 9);
    fb.set_pixel(0, 200, 9);
    assert_eq!(fb.as_bytes().iter().filter(|&&b| b == 9).count(), 0);
    assert_eq!(px(&fb, -5, -5), 0);
    fb.xor_pixel(3, 2);
    assert_eq!(px(&fb, 3, 2), 7 ^ 0xFF);
    fb.clear(4);
    assert!(fb.as_bytes().iter().all(|&b| b == 4));
}

#[test]
fn rectangles_and_lines() {
    let mut fb = Framebuffer::new();
    fill_rect(&mut fb, 10, 20, 3, 2, 5);
    let count = fb.as_bytes().iter().filter(|&&b| b == 5).count();
    assert_eq!(count, 6);
    assert_eq!(px(&fb, 12, 21), 5);
    assert_eq!(px(&fb, 13, 21), 0);
    fill_rect(&mut fb, 318, 198, 10, 10, 6);
    assert_eq!(fb.as_bytes().iter().filter(|&&b| b == 6).count(), 4);
    draw_hline(&mut fb, 0, 100, 320, 1);
    assert_eq!(fb.as_bytes()[100 * 320..101 * 320].iter().filter(|&&b| b == 1).count(), 320);
    draw_vline(&mut fb, 50, 0, 200, 2);
    assert_eq!(px(&fb, 50, 0), 2);
    assert_eq!(px(&fb, 50, 199), 2);
    let mut fb = Framebuffer::new();
    draw_rect(&mut fb, 100, 100, 4, 3, 8);
    assert_eq!(fb.as_bytes().iter().filter(|&&b| b == 8).count(), 10);
    assert_eq!(px(&fb, 101, 101), 0);
    assert_eq!(px(&fb, 103, 102), 8);
}

fn lit(fb: &Framebuffer, c: u8) -> Vec<(i16, i16)> {
    let mut v = Vec::new();
    for y in 0..200i16 {
        for x in 0..320i16 {
            if px(fb, x, y) == c {
                v.push((x, y));
            }
        }
    }
    v
}

#[test]
fn lines_follow_bresenham() {
    let mut fb = Framebuffer::new();
    draw_line(&mut fb, 0, 0, 4, 2, 3);
    assert_eq!(lit(&fb, 3), vec![(0, 0), (1, 1), (2, 1), (3, 2), (4, 2)]);
    let mut fb = Framebuffer::new();
    draw_line(&mut fb, 3, 3, 0, 0, 3);
    assert_eq!(lit(&fb, 3), vec![(0, 0), (1, 1), (2, 2), (3, 3)]);
    let mut fb = Framebuffer::new();
    draw_line(&mut fb, 7, 9, 7, 9, 3);
    assert_eq!(lit(&fb, 3), vec![(7, 9)]);
    let mut fb = Framebuffer::new();
    draw_line(&mut fb, -2, 0, 2, 0, 3);
    assert_eq!(lit(&fb, 3), vec![(0, 0), (1, 0), (2, 0)]);
    let mut fb = Framebuffer::new();
    draw_line(&mut fb, 10, 0, 10, 4, 3);
    assert_eq!(lit(&fb, 3), vec![(10, 0), (10, 1), (10, 2), (10, 3), (10, 4)]);
}

#[test]
fn glyphs_follow_the_font() {
    let mut fb = Framebuffer::new();
    draw_char(&mut fb, 0, 0, 'A', 7);
    // the first rows of 'A' are 0x0C and 0x1E, the lowest bit leftmost
    let row0: Vec<u8> = (0..8).map(|x| px(&fb, x, 0)).collect();
    assert_eq!(row0, vec![0, 0, 7, 7, 0, 0, 0, 0]);
    let row1: Vec<u8> = (0..8).map(|x| px(&fb, x, 1)).collect();
    assert_eq!(row1, vec![0, 7, 7, 7, 7, 0, 0, 0]);
    let row7: Vec<u8> = (0..8).map(|x| px(&fb, x, 7)).collect();
    assert_eq!(row7, vec![0; 8]);
    let mut fb2 = Framebuffer::new();
    draw_text(&mut fb2, 0, 0, b"AA", 7);
    let row0: Vec<u8> = (8..16).map(|x| px(&fb2, x, 0)).collect();
    assert_eq!(row0, vec![0, 0, 7, 7, 0, 0, 0, 0]);
    assert_eq!(text_width(b"hello"), 40);
    assert_eq!(text_width("żółw".as_bytes()), 56);
}

#[test]
fn palette_entries() {
    assert_eq!(rgb(0x14, 0x14, 0x20), (5, 5, 8));
    assert_eq!(lerp(8, 248, 1, 15), 24);
    assert_eq!(lerp(8, 248, 15, 15), 248);
    let r = ramp((0, 0, 0), (30, 60, 90), 4);
    assert_eq!(r, vec![(0, 0, 0), (10, 20, 30), (20, 40, 60), (30, 60, 90)]);
    let p = load_palette();
    assert_eq!(p.len(), 256);
    assert_eq!(p[0], (5, 5, 8));
    assert_eq!(p[15], (0, 0, 0));
    assert_eq!(p[16], (2, 2, 2));
    assert_eq!(p[31], (62, 62, 62));
    assert_eq!(p[255], (0, 0, 0));
    assert!(p.iter().all(|c| c.0 < 64 && c.1 < 64 && c.2 < 64));
}

#[test]
fn pointer_arrow() {
    let mut fb = Framebuffer::new();
    let c = Cursor::new(100, 50);
    c.render(&mut fb);
    assert_eq!(px(&fb, 100, 50), 15);
    assert_eq!(px(&fb, 101, 52), 8);
    assert_eq!(px(&fb, 102, 52), 15);
    assert_eq!(px(&fb, 107, 50), 0);
    let hidden = Cursor { x: 10, y: 10, visible: false };
    let mut fb2 = Framebuffer::new();
    hidden.render(&mut fb2);
    assert!(fb2.as_bytes().iter().all(|&b| b == 0));
}

#[test]
fn event_queue_is_fifo_and_bounded() {
    let mut q = EventQueue::new();
    assert_eq!(q.pop(), None);
    q.push(Event::Tick);
    q.push(Event::MouseMove { x: 1, y: 2 });
    assert_eq!(q.pop(), Some(Event::Tick));
    assert_eq!(q.pop(), Some(Event::MouseMove { x: 1, y: 2 }));
    assert_eq!(q.pop(), None);
    for i in 0..300i16 {
        q.push(Event::MouseMove { x: i, y: 0 });
    }
    let mut n = 0;
    while let Some(e) = q.pop() {
        assert_eq!(e, Event::MouseMove { x: n, y: 0 });
        n += 1;
    }
    assert_eq!(n, 256);
}

#[test]
fn rect_containment() {
    let r = Rect::new(10, 10, 5, 5);
    assert!(r.contains(10, 10));
    assert!(r.contains(14, 14));
    assert!(!r.contains(15, 10));
    assert!(!r.contains(9, 12));
}

#[test]
fn button_states_follow_the_pointer() {
    let mut b = Button::new(1, 10, 10, 40, 12, b"OK");
    assert_eq!(b.handle_event(&Event::MouseMove { x: 20, y: 15 }), EventResponse::Ignored);
    assert_eq!(b.state, ButtonState::Hovered);
    assert_eq!(b.handle_event(&Event::MouseDown { x: 20, y: 15, button: MouseButton::Left }), EventResponse::Consumed);
    assert_eq!(b.state, ButtonState::Pressed);
    assert_eq!(b.handle_event(&Event::MouseUp { x: 20, y: 15, button: MouseButton::Left }), EventResponse::Consumed);
    assert_eq!(b.state, ButtonState::Hovered);
    assert_eq!(b.handle_event(&Event::MouseMove { x: 100, y: 100 }), EventResponse::Ignored);
    assert_eq!(b.state, ButtonState::Normal);
    assert_eq!(b.handle_event(&Event::MouseUp { x: 20, y: 15, button: MouseButton::Left }), EventResponse::Ignored);
    assert_eq!(b.state, ButtonState::Normal);
    let theme = default_dark_theme();
    let mut fb = Framebuffer::new();
    b.render(&mut fb, &theme);
    assert_eq!(px(&fb, 10, 10), theme.button_bg);
    assert_eq!(px(&fb, 49, 21), theme.button_bg);
    assert_eq!(px(&fb, 50, 21), 0);
}

#[test]
fn label_bounds_follow_its_text() {
    let l = Label::new(3, 5, 6, b"abc").with_color(9);
    assert_eq!(rt(l.bounds()), (5, 6, 24, 8));
    let theme = default_dark_theme();
    let mut fb = Framebuffer::new();
    let mut l2 = Label::new(4, 0, 0, b"A").with_color(9);
    l2.render(&mut fb, &theme);
    assert_eq!(px(&fb, 2, 0), 9);
}

#[test]
fn window_geometry() {
    let theme = default_dark_theme();
    let w = Window::new(5, 20, 10, 280, 160, b"Terminal");
    assert_eq!(rt(w.title_bar_rect(&theme)), (20, 10, 280, 12));
    assert_eq!(rt(w.close_button_rect(&theme)), (289, 11, 10, 10));
    assert_eq!(rt(w.content_rect(&theme)), (21, 22, 278, 147));
}

#[test]
fn window_close_button_asks_to_close() {
    let mut w = Window::new(5, 20, 10, 280, 160, b"Terminal");
    assert_eq!(
        w.handle_event(&Event::MouseDown { x: 290, y: 12, button: MouseButton::Left }),
        EventResponse::CloseRequest
    );
    assert_eq!(
        w.handle_event(&Event::MouseDown { x: 100, y: 100, button: MouseButton::Left }),
        EventResponse::Consumed
    );
    assert_eq!(
        w.handle_event(&Event::MouseDown { x: 5, y: 5, button: MouseButton::Left }),
        EventResponse::Ignored
    );
}

#[test]
fn clock_text_is_h_mm_ss() {
    assert_eq!(format_time(1, 2, 3), b"1:02:03".to_vec());
    assert_eq!(format_time(123, 45, 6), b"123:45:06".to_vec());
}

#[test]
fn desktop_icon_opens_a_terminal() {
    let theme = default_dark_theme();
    let mut d = Desktop::new(0, &theme, vec![0u8; 320 * 186]);
    assert_eq!(rt(d.icon_rect()), (8, 8, 32, 28));
    assert_eq!(
        d.handle_event(&Event::MouseDown { x: 10, y: 10, button: MouseButton::Left }),
        EventResponse::OpenTerminal
    );
    assert_eq!(
        d.handle_event(&Event::MouseDown { x: 100, y: 100, button: MouseButton::Left }),
        EventResponse::Ignored
    );
}

#[test]
fn ids_count_up_from_ten() {
    let mut c = IdCounter::new();
    assert_eq!(c.next_id(), 10);
    assert_eq!(c.next_id(), 11);
    assert_eq!(c.next_id(), 12);
}

#[test]
fn new_terminal_windows_cascade() {
    let theme = default_dark_theme();
    let w = terminal_window(10, 11, &theme);
    assert_eq!((w.x, w.y, w.w, w.h), (20, 10, 280, 160));
    assert_eq!(w.title, b"Terminal".to_vec());
    let t = w.content.as_ref().unwrap();
    assert_eq!((t.id, t.x, t.y, t.w, t.h), (11, 21, 22, 278, 147));
    let w2 = terminal_window(12, 13, &theme);
    assert_eq!((w2.x, w2.y), (50, 40));
    let w3 = terminal_window(14, 15, &theme);
    assert_eq!((w3.x, w3.y), (20, 10));
}

#[test]
fn terminal_takes_keys_and_queues_the_line() {
    let mut t = TerminalWidget::new(1, 0, 0, 160, 100);
    assert_eq!(t.cols(), 20);
    assert_eq!(t.prompt(), b"/> ".to_vec());
    let n = t.lines.len();
    for c in "ls".chars() {
        assert_eq!(t.handle_event(&Event::KeyPress(KeyCode::Char(c))), EventResponse::Consumed);
    }
    assert_eq!(t.input, b"ls".to_vec());
    t.handle_event(&Event::KeyPress(KeyCode::Backspace));
    assert_eq!(t.input, b"l".to_vec());
    t.handle_event(&Event::KeyPress(KeyCode::Char('s')));
    t.handle_event(&Event::KeyPress(KeyCode::Enter));
    assert_eq!(t.input, Vec::<u8>::new());
    assert_eq!(t.lines.len(), n + 1);
    assert_eq!(t.lines[n], b"/> ls".to_vec());
    assert_eq!(t.take_pending(), Some(b"ls".to_vec()));
    assert_eq!(t.take_pending(), None);
    t.handle_event(&Event::KeyPress(KeyCode::Enter));
    assert_eq!(t.take_pending(), None);
}

#[test]
fn terminal_wraps_long_lines_and_keeps_a_hundred() {
    let mut t = TerminalWidget::new(1, 0, 0, 80, 100);
    assert_eq!(t.cols(), 10);
    let before = t.lines.len();
    t.push_line(b"abcdefghijklmnopqrstuvwxy");
    assert_eq!(t.lines.len(), before + 3);
    assert_eq!(t.lines[before], b"abcdefghij".to_vec());
    assert_eq!(t.lines[before + 2], b"uvwxy".to_vec());
    for _ in 0..150 {
        t.push_line(b"x");
    }
    assert_eq!(t.lines.len(), 100);
}

#[test]
fn terminal_cursor_blinks_every_25_ticks() {
    let mut t = TerminalWidget::new(1, 0, 0, 160, 100);
    assert!(t.cursor_visible);
    for _ in 0..24 {
        assert_eq!(t.handle_event(&Event::Tick), EventResponse::Ignored);
    }
    assert!(t.cursor_visible);
    t.handle_event(&Event::Tick);
    assert!(!t.cursor_visible);
    assert_eq!(t.blink, 0);
}

#[test]
fn compositor_routes_clicks_drags_and_closes() {
    let theme = default_dark_theme();
    let mut c = Compositor::new();
    c.add_widget(Layer::Desktop(Desktop::new(0, &theme, vec![0u8; 320 * 186])));
    c.add_widget(Layer::Window(terminal_window(10, 11, &theme)));
    c.add_widget(Layer::Window(terminal_window(12, 13, &theme)));
    assert_eq!(c.hit_test(100, 100), Some(12));
    assert_eq!(c.hit_test(25, 15), Some(10));
    assert_eq!(c.hit_test(5, 5), Some(0));
    // a press on the lower window's title bar raises and focuses it and starts a drag
    assert!(!c.handle_event(&Event::MouseDown { x: 30, y: 15, button: MouseButton::Left }));
    assert_eq!(c.focused_id, Some(10));
    assert_eq!(c.hit_test(100, 100), Some(10));
    assert!(c.drag_state.is_some());
    c.handle_event(&Event::MouseMove { x: 40, y: 25 });
    match &c.layers[2] {
        Layer::Window(w) => assert_eq!((w.id, w.x, w.y), (10, 30, 20)),
        _ => panic!("the raised window is on top"),
    }
    c.handle_event(&Event::MouseUp { x: 40, y: 25, button: MouseButton::Left });
    assert!(c.drag_state.is_none());
    // keys go to the focused window's terminal
    c.handle_event(&Event::KeyPress(KeyCode::Char('x')));
    match &c.layers[2] {
        Layer::Window(w) => assert_eq!(w.content.as_ref().unwrap().input, b"x".to_vec()),
        _ => panic!("the raised window is on top"),
    }
    // its close button removes it and the focus
    assert!(!c.handle_event(&Event::MouseDown { x: 300, y: 22, button: MouseButton::Left }));
    assert_eq!(c.layers.len(), 2);
    assert_eq!(c.focused_id, None);
    // the desktop icon asks for a new terminal
    assert!(c.handle_event(&Event::MouseDown { x: 10, y: 10, button: MouseButton::Left }));
    let mut fb = Framebuffer::new();
    let cur = Cursor::new(160, 100);
    c.render(&mut fb, &theme, &cur, 0);
    assert_eq!(px(&fb, 160, 100), 15);
}

fn filled(buf: &[u8], w: usize) -> Vec<(usize, usize)> {
    let mut v = Vec::new();
    for (i, &b) in buf.iter().enumerate() {
        if b == 1 {
            v.push((i % w, i / w));
        }
    }
    v
}

#[test]
fn polygons_fill_between_crossings() {
    let mut buf = vec![0u8; 100];
    fill_polygon(&mut buf, 10, 10, &[(2, 2), (6, 2), (6, 6), (2, 6)], 1);
    let cells = filled(&buf, 10);
    assert_eq!(cells.len(), 20);
    assert!(cells.contains(&(2, 2)) && cells.contains(&(6, 5)));
    assert!(!cells.contains(&(2, 6)) && !cells.contains(&(7, 3)));

    let mut buf = vec![0u8; 100];
    fill_polygon(&mut buf, 10, 10, &[(0, 0), (8, 8), (0, 8)], 1);
    let cells = filled(&buf, 10);
    assert_eq!(cells.len(), 36);
    assert!(cells.contains(&(7, 7)) && !cells.contains(&(8, 7)) && !cells.contains(&(0, 8)));

    let mut buf = vec![0u8; 100];
    fill_polygon(&mut buf, 10, 10, &[(-5, -5), (20, -5), (20, 3), (-5, 3)], 1);
    assert_eq!(filled(&buf, 10).len(), 30);

    let mut buf = vec![0u8; 100];
    fill_polygon(&mut buf, 10, 10, &[(0, 0), (5, 5)], 1);
    assert!(buf.iter().all(|&b| b == 0));
}

#[test]
fn path_numbers_are_found_between_separators() {
    let d = b"M568.23,1442.47c-111.71 79Z";
    assert_eq!(number_span(d, 1), (Some((1, 7)), 7));
    assert_eq!(number_span(d, 7), (Some((8, 15)), 15));
    assert_eq!(number_span(d, 15), (None, 15));
    assert_eq!(number_span(d, 16), (Some((16, 23)), 23));
    assert_eq!(number_span(d, 23), (Some((24, 26)), 26));
    assert_eq!(number_span(d, 26), (None, 26));
    assert_eq!(number_span(b", ,", 0), (None, 3));
    assert_eq!(number_span(b"#1", 0), (None, 0));
    assert_eq!(number_span(b"-,", 0), (Some((0, 1)), 1));
    assert_eq!(number_span(b".5", 0), (Some((0, 2)), 2));
}

#[test]
fn panel_offers_events_to_the_last_child_first() {
    let mut p = Panel::new(5, 0, 0, 100, 100);
    p.add_child(PanelChild::Button(Button::new(6, 10, 10, 40, 20, b"A")));
    p.add_child(PanelChild::Button(Button::new(7, 20, 20, 40, 20, b"B")));
    p.add_child(PanelChild::Label(Label::new(8, 0, 0, b"t")));
    // both buttons lie under (30, 25): the later one takes the press, the earlier is not offered it
    let r = p.handle_event(&Event::MouseDown { x: 30, y: 25, button: MouseButton::Left });
    assert_eq!(r, EventResponse::Consumed);
    match (&p.children[0], &p.children[1]) {
        (PanelChild::Button(a), PanelChild::Button(b)) => {
            assert_eq!(a.state, ButtonState::Normal);
            assert_eq!(b.state, ButtonState::Pressed);
        }
        _ => panic!("children changed kind"),
    }
    // a move is ignored by every child, and each button follows the pointer
    let r = p.handle_event(&Event::MouseMove { x: 15, y: 15 });
    assert_eq!(r, EventResponse::Ignored);
    match (&p.children[0], &p.children[1]) {
        (PanelChild::Button(a), PanelChild::Button(b)) => {
            assert_eq!(a.state, ButtonState::Hovered);
            assert_eq!(b.state, ButtonState::Normal);
        }
        _ => panic!("children changed kind"),
    }
}

#[test]
fn compositor_routes_repeated_ids_to_the_lowest_layer_with_the_id() {
    let theme = default_dark_theme();
    let mut c = Compositor::new();
    c.add_widget(Layer::Desktop(Desktop::new(0, &theme, vec![0u8; 320 * 186])));
    c.add_widget(Layer::Window(Window::new(7, 20, 20, 100, 60, b"a")));
    c.add_widget(Layer::Window(Window::new(7, 20, 20, 100, 60, b"b")));
    let titles = |c: &Compositor| -> Vec<Vec<u8>> {
        c.layers
            .iter()
            .filter_map(|l| match l {
                Layer::Window(w) => Some(w.title.clone()),
                _ => None,
            })
            .collect()
    };
    // the press lands on "b", but the lowest layer with id 7, "a", is raised
    assert!(!c.handle_event(&Event::MouseDown { x: 50, y: 50, button: MouseButton::Left }));
    assert_eq!(titles(&c), vec![b"b".to_vec(), b"a".to_vec()]);
    assert_eq!(c.focused_id, Some(7));
    // a press on the close button closes every layer with that id
    assert!(!c.handle_event(&Event::MouseDown { x: 112, y: 25, button: MouseButton::Left }));
    assert!(titles(&c).is_empty());
    assert_eq!(c.layers.len(), 1);
    assert_eq!(c.focused_id, None);
}

#[test]
fn compositor_accepts_drags_within_range() {
    let theme = default_dark_theme();
    let mut c = Compositor::new();
    c.add_widget(Layer::Window(Window::new(3, 20, 20, 100, 60, b"w")));
    assert!(c.accepts(&Event::MouseMove { x: 30000, y: 0 }));
    c.handle_event(&Event::MouseDown { x: 30, y: 25, button: MouseButton::Left });
    assert!(c.drag_state.is_some());
    assert!(c.accepts(&Event::MouseMove { x: 300, y: 190 }));
    assert!(!c.accepts(&Event::MouseMove { x: 30000, y: 0 }));
    let _ = theme;
}
