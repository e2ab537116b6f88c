//! The compositor: the stack of layers, focus, window dragging, and drawing.
use vstd::prelude::*;
use crate::gui::event::{Event, MouseButton};
use crate::gui::framebuffer::{Framebuffer, paint};
use crate::gui::theme::{Theme, default_dark_theme};
use crate::gui::cursor::{Cursor, cursor_brush};
use crate::gui::widget::{Widget, Rect, EventResponse, rect_has, rect_fits};
use crate::gui::widget::desktop::{Desktop, icon_rect};
use crate::gui::widget::window::{Window, close_rect_of};

verus! {

/// A layer of the screen: the desktop, or a window.
pub enum Layer {
    Desktop(Desktop),
    Window(Window),
}

pub open spec fn id_of(l: Layer) -> u32 {
    match l {
        Layer::Desktop(d) => d.id,
        Layer::Window(w) => w.id,
    }
}

pub open spec fn bounds_of(l: Layer) -> Rect {
    match l {
        Layer::Desktop(d) => d.bounds_spec(),
        Layer::Window(w) => w.bounds_spec(),
    }
}

/// The layers' ids, bottom first.
pub open spec fn ids(ls: Seq<Layer>) -> Seq<u32> {
    ls.map_values(|l: Layer| id_of(l))
}

/// A layer whose geometry keeps dragging and hit tests in range.
pub open spec fn layer_ok(l: Layer) -> bool {
    match l {
        Layer::Desktop(d) => true,
        Layer::Window(w) => {
            &&& w.event_ok()
            &&& w.w <= 16000 && w.h <= 16000
            &&& -16000 <= w.x <= 16000 && -16000 <= w.y <= 16000
            &&& rect_fits(close_rect_of(w.x as int, w.y as int, w.w, 12))
        },
    }
}

/// The topmost of the first `n` layers under the point.
pub open spec fn top_hit(ls: Seq<Layer>, n: int, x: int, y: int) -> Option<int>
    decreases n,
{
    if n <= 0 {
        None
    } else if rect_has(bounds_of(ls[n - 1]), x, y) {
        Some(n - 1)
    } else {
        top_hit(ls, n - 1, x, y)
    }
}

/// The lowest layer with the id, among the first `n`.
pub open spec fn first_with(ls: Seq<Layer>, id: u32, n: int) -> Option<int>
    decreases n,
{
    if n <= 0 {
        None
    } else {
        match first_with(ls, id, n - 1) {
            Some(k) => Some(k),
            None => if id_of(ls[n - 1]) == id { Some(n - 1) } else { None },
        }
    }
}

/// The layers with the one of that id moved to the top.
pub open spec fn raised(ls: Seq<Layer>, id: u32) -> Seq<Layer> {
    match first_with(ls, id, ls.len() as int) {
        Some(p) => if p < ls.len() - 1 { ls.remove(p).push(ls[p]) } else { ls },
        None => ls,
    }
}

/// The layers without those of that id.
pub open spec fn without(ls: Seq<Layer>, id: u32) -> Seq<Layer>
    decreases ls.len(),
{
    if ls.len() == 0 {
        ls
    } else if id_of(ls.last()) == id {
        without(ls.drop_last(), id)
    } else {
        without(ls.drop_last(), id).push(ls.last())
    }
}

/// How a layer changes when offered an event, and what it answers: a window
/// steps as its own handler says; the desktop stays and asks for a terminal
/// when its icon is pressed.
pub open spec fn layer_step(l0: Layer, e: Event, l1: Layer, r: EventResponse) -> bool {
    match l0 {
        Layer::Window(w0) => l1 matches Layer::Window(w1) && w0.steps(e, w1, r),
        Layer::Desktop(d0) => {
            &&& l1 == Layer::Desktop(d0)
            &&& r == if opens(l0, e) { EventResponse::OpenTerminal } else { EventResponse::Ignored }
        },
    }
}

/// The layer after being offered an event, whatever it answered.
pub open spec fn layer_reacts(l0: Layer, e: Event, l1: Layer) -> bool {
    exists|r: EventResponse| #[trigger] layer_step(l0, e, l1, r)
}

/// The layer moved to `(x, y)`: a window moves, the desktop stays.
pub open spec fn moved(l: Layer, x: i16, y: i16) -> Layer {
    match l {
        Layer::Window(w) => Layer::Window(Window { x: x, y: y, ..w }),
        Layer::Desktop(d) => Layer::Desktop(d),
    }
}

/// A window being dragged: its id, and where the pointer holds its title bar.
#[derive(Clone, Copy)]
pub struct DragState {
    pub widget_id: u32,
    pub offset_x: i16,
    pub offset_y: i16,
}

pub struct Compositor {
    pub layers: Vec<Layer>,
    pub focused_id: Option<u32>,
    pub drag_state: Option<DragState>,
}

/// A drag's move stays in the range windows are kept in: the pointer less
/// the drag's offset lies within 16000 of the origin on both axes, so that it
/// fits `i16` and the moved window's arithmetic does too.
pub open spec fn move_fits(drag: Option<DragState>, e: Event) -> bool {
    match e {
        Event::MouseMove { x, y } => match drag {
            Some(d) => -16000 <= x - d.offset_x <= 16000 && -16000 <= y - d.offset_y <= 16000,
            None => true,
        },
        _ => true,
    }
}

/// Where a press starts a drag: in the title bar, not on the close button.
pub open spec fn grabs(b: Rect, x: int, y: int) -> bool {
    rect_has(Rect { x: b.x, y: b.y, w: b.w, h: 12 }, x, y) && !rect_has(
        Rect { x: (b.x + b.w - 12 + 1) as i16, y: (b.y + 1) as i16, w: 10, h: 10 },
        x,
        y,
    )
}

impl Compositor {
    pub open spec fn wf(&self) -> bool {
        &&& forall|k: int| 0 <= k < self.layers@.len() ==> layer_ok(#[trigger] self.layers@[k])
        &&& self.drag_state matches Some(d) ==> 0 <= d.offset_x <= 16000 && 0 <= d.offset_y <= 16000
    }

    pub fn new() -> (c: Compositor)
        ensures
            c.wf(),
            c.layers@.len() == 0,
            c.focused_id is None,
            c.drag_state is None,
    {
        Compositor { layers: Vec::new(), focused_id: None, drag_state: None }
    }

    /// Puts a layer on top.
    pub fn add_widget(&mut self, l: Layer)
        requires
            old(self).wf(),
            layer_ok(l),
        ensures
            final(self).wf(),
            final(self).layers@ == old(self).layers@.push(l),
            final(self).focused_id == old(self).focused_id,
            final(self).drag_state == old(self).drag_state,
    {
        self.layers.push(l);
    }

    fn layer_id(l: &Layer) -> (r: u32)
        ensures
            r == id_of(*l),
    {
        match l {
            Layer::Desktop(d) => d.id,
            Layer::Window(w) => w.id,
        }
    }

    /// Drops the layers of that id; focus and a drag on it end.
    pub fn remove_widget(&mut self, id: u32)
        requires
            old(self).wf(),
        ensures
            final(self).wf(),
            final(self).layers@ == without(old(self).layers@, id),
            final(self).focused_id == if old(self).focused_id == Some(id) { None } else { old(self).focused_id },
            final(self).drag_state == match old(self).drag_state {
                Some(d) => if d.widget_id == id { None } else { Some(d) },
                None => None,
            },
    {
        let mut old_layers: Vec<Layer> = Vec::new();
        std::mem::swap(&mut old_layers, &mut self.layers);
        let ghost ls = old_layers@;
        let mut kept: Vec<Layer> = Vec::new();
        let mut rest = old_layers;
        let ghost mut taken: Seq<Layer> = Seq::empty();
        assert(taken + rest@ =~= ls);
        while rest.len() > 0
            invariant
                kept@ == without(taken, id),
                taken + rest@ == ls,
                forall|k: int| 0 <= k < ls.len() ==> layer_ok(#[trigger] ls[k]),
            decreases rest@.len(),
        {
            let l = rest.remove(0);
            let ghost t0 = taken;
            proof {
                taken = taken.push(l);
                assert(taken + rest@ =~= ls);
                assert(taken.drop_last() =~= t0);
            }
            if Self::layer_id(&l) != id {
                kept.push(l);
            }
        }
        assert(taken =~= ls);
        self.layers = kept;
        proof {
            lemma_without_ok(ls, id);
        }
        if self.focused_id == Some(id) {
            self.focused_id = None;
        }
        match self.drag_state {
            Some(d) => {
                if d.widget_id == id {
                    self.drag_state = None;
                }
            },
            None => {},
        }
    }

    /// The index of the lowest layer with the id.
    fn position(&self, id: u32) -> (r: Option<usize>)
        ensures
            match r {
                Some(i) => i < self.layers@.len() && first_with(self.layers@, id, self.layers@.len() as int) == Some(i as int),
                None => first_with(self.layers@, id, self.layers@.len() as int) is None,
            },
    {
        let mut i: usize = 0;
        while i < self.layers.len()
            invariant
                i <= self.layers@.len(),
                first_with(self.layers@, id, i as int) is None,
            decreases self.layers@.len() - i,
        {
            if Self::layer_id(&self.layers[i]) == id {
                proof {
                    lemma_first_with_stable(self.layers@, id, i + 1, self.layers@.len() as int);
                }
                return Some(i);
            }
            i = i + 1;
        }
        None
    }

    /// Moves the layer of that id to the top.
    pub fn raise_to_top(&mut self, id: u32)
        requires
            old(self).wf(),
        ensures
            final(self).wf(),
            final(self).layers@ == raised(old(self).layers@, id),
            final(self).focused_id == old(self).focused_id,
            final(self).drag_state == old(self).drag_state,
    {
        match self.position(id) {
            Some(pos) => {
                if pos < self.layers.len() - 1 {
                    let ghost ls = self.layers@;
                    let w = self.layers.remove(pos);
                    self.layers.push(w);
                    proof {
                        assert(first_with(ls, id, ls.len() as int) == Some(pos as int));
                        assert(self.layers@ =~= ls.remove(pos as int).push(ls[pos as int]));
                        assert(raised(ls, id) == ls.remove(pos as int).push(ls[pos as int]));
                        assert forall|k: int| 0 <= k < self.layers@.len() implies layer_ok(#[trigger] self.layers@[k]) by {
                            if k < pos {
                                assert(self.layers@[k] == ls[k]);
                            } else if k < self.layers@.len() - 1 {
                                assert(self.layers@[k] == ls[k + 1]);
                            } else {
                                assert(self.layers@[k] == ls[pos as int]);
                            }
                        }
                    }
                }
            },
            None => {},
        }
    }

    /// The id of the topmost layer under the point.
    pub fn hit_test(&self, x: i16, y: i16) -> (r: Option<u32>)
        requires
            self.wf(),
        ensures
            match top_hit(self.layers@, self.layers@.len() as int, x as int, y as int) {
                Some(k) => r == Some(id_of(self.layers@[k])),
                None => r is None,
            },
    {
        let mut i = self.layers.len();
        while i > 0
            invariant
                i <= self.layers@.len(),
                self.wf(),
                top_hit(self.layers@, self.layers@.len() as int, x as int, y as int) == top_hit(
                    self.layers@,
                    i as int,
                    x as int,
                    y as int,
                ),
            decreases i,
        {
            let b = match &self.layers[i - 1] {
                Layer::Desktop(d) => d.bounds(),
                Layer::Window(w) => w.bounds(),
            };
            proof {
                assert(layer_ok(self.layers@[i - 1]));
            }
            if b.contains(x, y) {
                return Some(Self::layer_id(&self.layers[i - 1]));
            }
            i = i - 1;
        }
        None
    }
}

proof fn lemma_first_with_stable(ls: Seq<Layer>, id: u32, i: int, n: int)
    requires
        0 < i <= n <= ls.len(),
        first_with(ls, id, i - 1) is None,
        id_of(ls[i - 1]) == id,
    ensures
        first_with(ls, id, n) == Some(i - 1),
    decreases n - i,
{
    if n > i {
        lemma_first_with_stable(ls, id, i, n - 1);
    }
}

proof fn lemma_without_ok(ls: Seq<Layer>, id: u32)
    requires
        forall|k: int| 0 <= k < ls.len() ==> layer_ok(#[trigger] ls[k]),
    ensures
        forall|k: int| 0 <= k < without(ls, id).len() ==> layer_ok(#[trigger] without(ls, id)[k]),
    decreases ls.len(),
{
    if ls.len() > 0 {
        lemma_without_ok(ls.drop_last(), id);
        let w = without(ls.drop_last(), id);
        if id_of(ls.last()) != id {
            assert forall|k: int| 0 <= k < w.push(ls.last()).len() implies layer_ok(#[trigger] w.push(ls.last())[k]) by {
                if k < w.len() {
                    assert(w.push(ls.last())[k] == w[k]);
                }
            }
        }
    }
}


/// A left press at `(x, y)`.
pub open spec fn left_press_at(e: Event, x: int, y: int) -> bool {
    e matches Event::MouseDown { x: ex, y: ey, button: MouseButton::Left } && ex == x && ey == y
}

/// The layer asks to be closed for this event: a window whose close button is pressed.
pub open spec fn closes(l: Layer, e: Event) -> bool {
    match e {
        Event::MouseDown { x, y, button: MouseButton::Left } => match l {
            Layer::Window(w) => rect_has(close_rect_of(w.x as int, w.y as int, w.w, 12), x as int, y as int),
            Layer::Desktop(_) => false,
        },
        _ => false,
    }
}

/// The layer asks for a new terminal for this event: the desktop's icon is pressed.
pub open spec fn opens(l: Layer, e: Event) -> bool {
    match e {
        Event::MouseDown { x, y, button: MouseButton::Left } => match l {
            Layer::Desktop(_) => rect_has(icon_rect(), x as int, y as int),
            Layer::Window(_) => false,
        },
        _ => false,
    }
}

/// The drag a press starts on the layer of `id` with bounds `b`, if any.
pub open spec fn drag_after_press(old_drag: Option<DragState>, id: u32, b: Rect, x: int, y: int) -> Option<DragState> {
    if id != 0 && grabs(b, x, y) {
        Some(DragState { widget_id: id, offset_x: (x - b.x) as i16, offset_y: (y - b.y) as i16 })
    } else {
        old_drag
    }
}

/// Ids appear once each.
pub open spec fn ids_unique(ls: Seq<Layer>) -> bool {
    forall|i: int, j: int| 0 <= i < j < ls.len() ==> id_of(#[trigger] ls[i]) != id_of(#[trigger] ls[j])
}

impl Compositor {
    /// Offers an event to one layer.
    fn forward(&mut self, i: usize, event: &Event) -> (r: EventResponse)
        requires
            old(self).wf(),
            i < old(self).layers@.len(),
        ensures
            final(self).wf(),
            ids(final(self).layers@) == ids(old(self).layers@),
            forall|k: int| 0 <= k < old(self).layers@.len() ==> bounds_of(#[trigger] final(self).layers@[k])
                == bounds_of(old(self).layers@[k]),
            forall|k: int| 0 <= k < old(self).layers@.len() && k != i ==> #[trigger] final(self).layers@[k]
                == old(self).layers@[k],
            final(self).focused_id == old(self).focused_id,
            final(self).drag_state == old(self).drag_state,
            (r == EventResponse::OpenTerminal) == opens(old(self).layers@[i as int], *event),
            (r == EventResponse::CloseRequest) == closes(old(self).layers@[i as int], *event),
            layer_step(old(self).layers@[i as int], *event, final(self).layers@[i as int], r),
    {
        let ghost ls = self.layers@;
        let l = self.layers.remove(i);
        assert(layer_ok(ls[i as int]));
        let (l2, r) = match l {
            Layer::Desktop(d) => {
                let mut d = d;
                let r = d.handle_event(event);
                (Layer::Desktop(d), r)
            },
            Layer::Window(w) => {
                let mut w = w;
                let ghost w0 = w;
                let r = w.handle_event(event);
                proof {
                    let inner = choose|inner: Option<EventResponse>| {
                        &&& r == w0.answer(*event, inner)
                        &&& inner is Some <==> (w0.content is Some && w0.delivers(*event))
                        &&& match inner {
                            None => w.content == w0.content,
                            Some(v) => w0.content.unwrap().reacts(*event, &w.content.unwrap(), v),
                        }
                    };
                    assert(r == w0.answer(*event, inner));
                }
                (Layer::Window(w), r)
            },
        };
        self.layers.insert(i, l2);
        proof {
            assert(self.layers@ =~= ls.update(i as int, l2));
            assert(ids(self.layers@) =~= ids(ls));
            assert forall|k: int| 0 <= k < self.layers@.len() implies layer_ok(#[trigger] self.layers@[k]) by {
                if k != i {
                    assert(self.layers@[k] == ls[k]);
                }
            }
        }
        r
    }
}


proof fn lemma_first_with_none(ls: Seq<Layer>, id: u32, n: int)
    requires
        0 <= n <= ls.len(),
        forall|j: int| 0 <= j < n ==> id_of(#[trigger] ls[j]) != id,
    ensures
        first_with(ls, id, n) is None,
    decreases n,
{
    if n > 0 {
        lemma_first_with_none(ls, id, n - 1);
    }
}

/// With ids unique, the layer of an id is found where it is.
proof fn lemma_first_with_unique(ls: Seq<Layer>, k: int)
    requires
        ids_unique(ls),
        0 <= k < ls.len(),
    ensures
        first_with(ls, id_of(ls[k]), ls.len() as int) == Some(k),
{
    assert forall|j: int| 0 <= j < k implies id_of(#[trigger] ls[j]) != id_of(ls[k]) by {}
    lemma_first_with_none(ls, id_of(ls[k]), k);
    lemma_first_with_stable(ls, id_of(ls[k]), k + 1, ls.len() as int);
}

/// Raising a layer keeps ids unique and puts it on top.
proof fn lemma_raised(ls: Seq<Layer>, k: int)
    requires
        ids_unique(ls),
        0 <= k < ls.len(),
    ensures
        ids_unique(raised(ls, id_of(ls[k]))),
        raised(ls, id_of(ls[k])).len() == ls.len(),
        raised(ls, id_of(ls[k]))[ls.len() - 1] == ls[k],
        forall|l: Layer| #[trigger] raised(ls, id_of(ls[k])).contains(l) ==> ls.contains(l),
{
    lemma_first_with_unique(ls, k);
    let r = raised(ls, id_of(ls[k]));
    if k < ls.len() - 1 {
        assert(r == ls.remove(k).push(ls[k]));
        assert forall|i: int, j: int| 0 <= i < j < r.len() implies id_of(#[trigger] r[i]) != id_of(#[trigger] r[j]) by {
            let i0 = if i < k { i } else { i + 1 };
            let j0 = if j == r.len() - 1 { k } else if j < k { j } else { j + 1 };
            assert(r[i] == ls[i0]);
            assert(r[j] == ls[j0]);
            assert(i0 != j0);
        }
        assert forall|l: Layer| r.contains(l) implies ls.contains(l) by {
            let i = choose|i: int| 0 <= i < r.len() && r[i] == l;
            let i0 = if i == r.len() - 1 { k } else if i < k { i } else { i + 1 };
            assert(ls[i0] == l);
        }
    }
}

/// The layers without those of an id are among the layers, in order.
proof fn lemma_without(ls: Seq<Layer>, id: u32)
    requires
        ids_unique(ls),
    ensures
        ids_unique(without(ls, id)),
        forall|i: int| 0 <= i < without(ls, id).len() ==> id_of(#[trigger] without(ls, id)[i]) != id && exists|j: int|
            0 <= j < ls.len() && ls[j] == without(ls, id)[i],
    decreases ls.len(),
{
    if ls.len() > 0 {
        let d = ls.drop_last();
        assert(ids_unique(d)) by {
            assert forall|i: int, j: int| 0 <= i < j < d.len() implies id_of(#[trigger] d[i]) != id_of(#[trigger] d[j]) by {
                assert(d[i] == ls[i] && d[j] == ls[j]);
            }
        }
        lemma_without(d, id);
        let w = without(d, id);
        if id_of(ls.last()) != id {
            let w2 = w.push(ls.last());
            assert(without(ls, id) == w2);
            assert forall|i: int| 0 <= i < w2.len() implies id_of(#[trigger] w2[i]) != id && exists|j: int|
                0 <= j < ls.len() && ls[j] == w2[i] by {
                if i < w.len() {
                    assert(w2[i] == w[i]);
                    let j = choose|j: int| 0 <= j < d.len() && d[j] == w[i];
                    assert(ls[j] == w2[i]);
                } else {
                    assert(ls[ls.len() - 1] == w2[i]);
                }
            }
            assert forall|i: int, j: int| 0 <= i < j < w2.len() implies id_of(#[trigger] w2[i]) != id_of(#[trigger] w2[j]) by {
                if j == w2.len() - 1 {
                    assert(w2[i] == w[i]);
                    let m = choose|m: int| 0 <= m < d.len() && d[m] == w[i];
                    assert(ls[m] == w2[i]);
                    assert(id_of(ls[m]) != id_of(ls[ls.len() - 1]));
                } else {
                    assert(w2[i] == w[i] && w2[j] == w[j]);
                }
            }
        } else {
            assert(without(ls, id) == w);
            assert forall|i: int| 0 <= i < w.len() implies id_of(#[trigger] w[i]) != id && exists|j: int|
                0 <= j < ls.len() && ls[j] == w[i] by {
                let j = choose|j: int| 0 <= j < d.len() && d[j] == w[i];
                assert(ls[j] == w[i]);
            }
        }
    }
}

proof fn lemma_first_with_some(ls: Seq<Layer>, id: u32, n: int)
    requires
        0 <= n <= ls.len(),
    ensures
        first_with(ls, id, n) matches Some(p) ==> 0 <= p < n && id_of(ls[p]) == id,
    decreases n,
{
    if n > 0 {
        lemma_first_with_some(ls, id, n - 1);
    }
}

/// Replacing a layer by another of the same id changes nothing once that id is dropped.
proof fn lemma_without_update(ls: Seq<Layer>, p: int, l: Layer, id: u32)
    requires
        0 <= p < ls.len(),
        id_of(ls[p]) == id,
        id_of(l) == id,
    ensures
        without(ls.update(p, l), id) == without(ls, id),
    decreases ls.len(),
{
    let u = ls.update(p, l);
    if p < ls.len() - 1 {
        assert(u.drop_last() =~= ls.drop_last().update(p, l));
        assert(u.last() == ls.last());
        lemma_without_update(ls.drop_last(), p, l, id);
    } else {
        assert(u.drop_last() =~= ls.drop_last());
    }
}

proof fn lemma_without_ids(a: Seq<Layer>, b: Seq<Layer>, id: u32)
    requires
        ids(a) == ids(b),
    ensures
        ids(without(a, id)) == ids(without(b, id)),
    decreases a.len(),
{
    assert(ids(a).len() == a.len() && ids(b).len() == b.len());
    if a.len() > 0 {
        assert(ids(a.drop_last()) =~= ids(a).drop_last());
        assert(ids(b.drop_last()) =~= ids(b).drop_last());
        lemma_without_ids(a.drop_last(), b.drop_last(), id);
        assert(id_of(a.last()) == ids(a)[a.len() - 1]);
        assert(id_of(b.last()) == ids(b)[b.len() - 1]);
        if id_of(a.last()) != id {
            assert(ids(without(a, id)) =~= ids(without(a.drop_last(), id)).push(id_of(a.last())));
            assert(ids(without(b, id)) =~= ids(without(b.drop_last(), id)).push(id_of(b.last())));
        }
    }
}

proof fn lemma_unique_by_ids(a: Seq<Layer>, b: Seq<Layer>)
    requires
        ids(a) == ids(b),
        ids_unique(a),
    ensures
        ids_unique(b),
{
    assert(ids(a).len() == a.len() && ids(b).len() == b.len());
    assert forall|i: int, j: int| 0 <= i < j < b.len() implies id_of(#[trigger] b[i]) != id_of(#[trigger] b[j]) by {
        assert(id_of(b[i]) == ids(b)[i] && id_of(a[i]) == ids(a)[i]);
        assert(id_of(b[j]) == ids(b)[j] && id_of(a[j]) == ids(a)[j]);
    }
}

impl Compositor {
    fn layer_bounds(&self, i: usize) -> (r: Rect)
        requires
            i < self.layers@.len(),
        ensures
            r == bounds_of(self.layers@[i as int]),
    {
        match &self.layers[i] {
            Layer::Desktop(d) => d.bounds(),
            Layer::Window(w) => w.bounds(),
        }
    }

    /// Moves a window layer; the desktop stays.
    fn set_layer_position(&mut self, i: usize, x: i16, y: i16)
        requires
            old(self).wf(),
            i < old(self).layers@.len(),
            layer_ok(moved(old(self).layers@[i as int], x, y)),
        ensures
            final(self).wf(),
            ids(final(self).layers@) == ids(old(self).layers@),
            final(self).layers@ == old(self).layers@.update(i as int, moved(old(self).layers@[i as int], x, y)),
            final(self).focused_id == old(self).focused_id,
            final(self).drag_state == old(self).drag_state,
    {
        let ghost ls = self.layers@;
        let l = self.layers.remove(i);
        assert(layer_ok(ls[i as int]));
        let l2 = match l {
            Layer::Desktop(d) => Layer::Desktop(d),
            Layer::Window(w) => {
                let mut w = w;
                w.set_position(x, y);
                Layer::Window(w)
            },
        };
        self.layers.insert(i, l2);
        proof {
            assert(self.layers@ =~= ls.update(i as int, l2));
            assert(ids(self.layers@) =~= ids(ls));
            assert forall|k: int| 0 <= k < self.layers@.len() implies layer_ok(#[trigger] self.layers@[k]) by {
                if k != i {
                    assert(self.layers@[k] == ls[k]);
                }
            }
        }
    }

    /// Offers an event to every layer, bottom first.
    fn broadcast(&mut self, event: &Event)
        requires
            old(self).wf(),
        ensures
            final(self).wf(),
            ids(final(self).layers@) == ids(old(self).layers@),
            final(self).layers@.len() == old(self).layers@.len(),
            forall|k: int| 0 <= k < old(self).layers@.len() ==> layer_reacts(
                old(self).layers@[k],
                *event,
                #[trigger] final(self).layers@[k],
            ),
            final(self).focused_id == old(self).focused_id,
            final(self).drag_state == old(self).drag_state,
    {
        let mut i: usize = 0;
        while i < self.layers.len()
            invariant
                self.wf(),
                i <= self.layers@.len(),
                self.layers@.len() == old(self).layers@.len(),
                ids(self.layers@) == ids(old(self).layers@),
                forall|k: int| 0 <= k < i ==> layer_reacts(old(self).layers@[k], *event, #[trigger] self.layers@[k]),
                forall|k: int| i <= k < self.layers@.len() ==> #[trigger] self.layers@[k] == old(self).layers@[k],
                self.focused_id == old(self).focused_id,
                self.drag_state == old(self).drag_state,
            decreases self.layers@.len() - i,
        {
            let ghost before = self.layers@;
            let resp = self.forward(i, event);
            proof {
                assert(layer_step(before[i as int], *event, self.layers@[i as int], resp));
                assert(layer_reacts(old(self).layers@[i as int], *event, self.layers@[i as int]));
                assert forall|k: int| 0 <= k < i implies layer_reacts(old(self).layers@[k], *event, #[trigger] self.layers@[k]) by {
                    assert(self.layers@[k] == before[k]);
                }
            }
            proof {
                assert(ids(self.layers@).len() == self.layers@.len());
            }
            i = i + 1;
        }
    }

    /// The layers after an event is routed: a press takes the id of the top
    /// layer under it, raises the lowest layer with that id unless the id is
    /// the desktop's, goes to the lowest layer with that id (the one under the
    /// pointer, where ids are unique), and a close request drops every layer
    /// with that id; a move drags the held window, then goes to every layer; a
    /// release goes to every layer; a key goes to the focused layer.
    pub open spec fn routed(&self, e: Event, after: Seq<Layer>) -> bool {
        let ls = self.layers@;
        match e {
            Event::MouseDown { x, y, button: MouseButton::Left } => match top_hit(ls, ls.len() as int, x as int, y as int) {
                None => after == ls,
                Some(k) => {
                    let id = id_of(ls[k]);
                    let ls1 = if id != 0 { raised(ls, id) } else { ls };
                    match first_with(ls1, id, ls1.len() as int) {
                        None => after == ls1,
                        Some(pos) => {
                            let l = ls1[pos];
                            if closes(l, e) {
                                after == without(ls1, id)
                            } else {
                                after.len() == ls1.len() && layer_reacts(l, e, after[pos]) && after == ls1.update(
                                    pos,
                                    after[pos],
                                )
                            }
                        },
                    }
                },
            },
            Event::MouseMove { x, y } => {
                let ls1 = match self.drag_state {
                    Some(d) => match first_with(ls, d.widget_id, ls.len() as int) {
                        Some(p) => ls.update(p, moved(ls[p], (x - d.offset_x) as i16, (y - d.offset_y) as i16)),
                        None => ls,
                    },
                    None => ls,
                };
                &&& after.len() == ls.len()
                &&& forall|k: int| 0 <= k < ls.len() ==> layer_reacts(ls1[k], e, #[trigger] after[k])
            },
            Event::MouseUp { .. } => {
                &&& after.len() == ls.len()
                &&& forall|k: int| 0 <= k < ls.len() ==> layer_reacts(ls[k], e, #[trigger] after[k])
            },
            Event::KeyPress(_) => match self.focused_id {
                Some(fid) => match first_with(ls, fid, ls.len() as int) {
                    Some(p) => layer_reacts(ls[p], e, after[p]) && after == ls.update(p, after[p]),
                    None => after == ls,
                },
                None => after == ls,
            },
            _ => after == ls,
        }
    }

    /// Whether `handle_event` takes the event: `move_fits`.
    pub fn accepts(&self, event: &Event) -> (r: bool)
        ensures
            r == move_fits(self.drag_state, *event),
    {
        match (*event, self.drag_state) {
            (Event::MouseMove { x, y }, Some(d)) => {
                let nx = x as i32 - d.offset_x as i32;
                let ny = y as i32 - d.offset_y as i32;
                -16000 <= nx && nx <= 16000 && -16000 <= ny && ny <= 16000
            },
            _ => true,
        }
    }

    /// Routes an event: a press raises, focuses and may start dragging the
    /// layer under it and goes to it, closing it on request (layers are found
    /// by id, the lowest first, so with a repeated id it is the lowest layer
    /// with the id of the top layer under the pointer that is raised and
    /// handed the press); a move drags and
    /// goes to every layer; a release ends a drag and goes to every layer; a
    /// key goes to the focused layer. The answer is whether a new terminal
    /// window is wanted.
    pub fn handle_event(&mut self, event: &Event) -> (r: bool)
        requires
            old(self).wf(),
            move_fits(old(self).drag_state, *event),
        ensures
            final(self).wf(),
            ids_unique(old(self).layers@) ==> ids_unique(final(self).layers@),
            old(self).routed(*event, final(self).layers@),
            match *event {
                Event::MouseDown { x, y, button: MouseButton::Left } => match top_hit(
                    old(self).layers@,
                    old(self).layers@.len() as int,
                    x as int,
                    y as int,
                ) {
                    None => !r && ids(final(self).layers@) == ids(old(self).layers@) && final(self).focused_id
                        == old(self).focused_id && final(self).drag_state == old(self).drag_state,
                    Some(k) => {
                        let id = id_of(old(self).layers@[k]);
                        let ls1 = if id != 0 { raised(old(self).layers@, id) } else { old(self).layers@ };
                        let focus1 = if id != 0 { Some(id) } else { old(self).focused_id };
                        match first_with(ls1, id, ls1.len() as int) {
                            None => !r && ids(final(self).layers@) == ids(ls1) && final(self).focused_id == focus1
                                && final(self).drag_state == old(self).drag_state,
                            Some(p) => {
                                let l = ls1[p];
                                let drag1 = drag_after_press(old(self).drag_state, id, bounds_of(l), x as int, y as int);
                                &&& r == opens(l, *event)
                                &&& if closes(l, *event) {
                                    &&& ids(final(self).layers@) == ids(without(ls1, id))
                                    &&& final(self).focused_id == if focus1 == Some(id) { None } else { focus1 }
                                    &&& final(self).drag_state == match drag1 {
                                        Some(d) => if d.widget_id == id { None } else { Some(d) },
                                        None => None,
                                    }
                                } else {
                                    &&& ids(final(self).layers@) == ids(ls1)
                                    &&& final(self).focused_id == focus1
                                    &&& final(self).drag_state == drag1
                                }
                            },
                        }
                    },
                },
                Event::MouseUp { .. } => !r && ids(final(self).layers@) == ids(old(self).layers@)
                    && final(self).focused_id == old(self).focused_id && final(self).drag_state is None,
                _ => !r && ids(final(self).layers@) == ids(old(self).layers@) && final(self).focused_id
                    == old(self).focused_id && final(self).drag_state == old(self).drag_state,
            },
    {
        match *event {
            Event::MouseDown { x, y, button: MouseButton::Left } => {
                let ghost ls0 = self.layers@;
                let hit = self.hit_test(x, y);
                let hit_id = match hit {
                    Some(h) => h,
                    None => return false,
                };
                let ghost k = top_hit(ls0, ls0.len() as int, x as int, y as int)->0;
                proof {
                    lemma_top_hit_range(ls0, ls0.len() as int, x as int, y as int);
                    if ids_unique(ls0) {
                        lemma_raised(ls0, k);
                    }
                }
                if hit_id != 0 {
                    self.raise_to_top(hit_id);
                    self.focused_id = Some(hit_id);
                }
                let ghost ls1 = self.layers@;
                let pos = match self.position(hit_id) {
                    Some(p) => p,
                    None => {
                        return false;
                    },
                };
                proof {
                    assert(layer_ok(ls1[pos as int]));
                }
                if hit_id != 0 {
                    let b = self.layer_bounds(pos);
                    let in_bar = x >= b.x && (x as i32) < b.x as i32 + b.w as i32 && y >= b.y && (y as i32) < b.y as i32 + 12;
                    let cx = b.x as i32 + b.w as i32 - 12 + 1;
                    let cy = b.y as i32 + 1;
                    let in_close = x as i32 >= cx && (x as i32) < cx + 10 && y as i32 >= cy && (y as i32) < cy + 10;
                    if in_bar && !in_close {
                        self.drag_state = Some(DragState { widget_id: hit_id, offset_x: x - b.x, offset_y: y - b.y });
                    }
                }
                let resp = self.forward(pos, event);
                let ghost ls2 = self.layers@;
                proof {
                    if ids_unique(ls1) {
                        lemma_unique_by_ids(ls1, ls2);
                    }
                    assert(layer_step(ls1[pos as int], *event, ls2[pos as int], resp));
                    assert(layer_reacts(ls1[pos as int], *event, ls2[pos as int]));
                    assert(ids(ls2).len() == ls2.len() && ids(ls1).len() == ls1.len());
                    assert(ls2 =~= ls1.update(pos as int, ls2[pos as int]));
                }
                let open_terminal = resp == EventResponse::OpenTerminal;
                if resp == EventResponse::CloseRequest {
                    self.remove_widget(hit_id);
                    proof {
                        if ids_unique(ls2) {
                            lemma_without(ls2, hit_id);
                        }
                        lemma_without_ids(ls2, ls1, hit_id);
                    }
                }
                proof {
                    let l2 = ls2[pos as int];
                    assert(top_hit(ls0, ls0.len() as int, x as int, y as int) == Some(k));
                    assert(id_of(ls0[k]) == hit_id);
                    assert(ls1 == if hit_id != 0 { raised(ls0, hit_id) } else { ls0 });
                    assert(first_with(ls1, hit_id, ls1.len() as int) == Some(pos as int));
                    assert(layer_reacts(ls1[pos as int], *event, l2));
                    assert(closes(ls1[pos as int], *event) == (resp == EventResponse::CloseRequest));
                    if resp == EventResponse::CloseRequest {
                        lemma_first_with_some(ls1, hit_id, ls1.len() as int);
                        assert(ids(ls2)[pos as int] == ids(ls1)[pos as int]);
                        lemma_without_update(ls1, pos as int, l2, hit_id);
                        assert(self.layers@ == without(ls1, hit_id));
                    } else {
                        assert(self.layers@ == ls1.update(pos as int, l2));
                    }
                }
                open_terminal
            },
            Event::MouseDown { .. } => false,
            Event::MouseMove { x, y } => {
                match self.drag_state {
                    Some(d) => {
                        let new_x = x - d.offset_x;
                        let new_y = y - d.offset_y;
                        match self.position(d.widget_id) {
                            Some(p) => self.set_layer_position(p, new_x, new_y),
                            None => {},
                        }
                    },
                    None => {},
                }
                let ghost ls1 = self.layers@;
                proof {
                    assert(ids(ls1).len() == ls1.len());
                    assert(ids(old(self).layers@).len() == old(self).layers@.len());
                }
                self.broadcast(event);
                proof {
                    if ids_unique(old(self).layers@) {
                        lemma_unique_by_ids(old(self).layers@, self.layers@);
                    }
                }
                false
            },
            Event::MouseUp { .. } => {
                self.drag_state = None;
                self.broadcast(event);
                proof {
                    if ids_unique(old(self).layers@) {
                        lemma_unique_by_ids(old(self).layers@, self.layers@);
                    }
                }
                false
            },
            Event::KeyPress(_) => {
                match self.focused_id {
                    Some(fid) => {
                        match self.position(fid) {
                            Some(p) => {
                                let resp = self.forward(p, event);
                                proof {
                                    if ids_unique(old(self).layers@) {
                                        lemma_unique_by_ids(old(self).layers@, self.layers@);
                                    }
                                    assert(layer_step(old(self).layers@[p as int], *event, self.layers@[p as int], resp));
                                    assert(layer_reacts(old(self).layers@[p as int], *event, self.layers@[p as int]));
                                    assert(ids(self.layers@).len() == self.layers@.len());
                                    assert(ids(old(self).layers@).len() == old(self).layers@.len());
                                    assert(self.layers@ =~= old(self).layers@.update(p as int, self.layers@[p as int]));
                                                    }
                            },
                            None => {},
                        }
                    },
                    None => {},
                }
                false
            },
            Event::Tick => false,
        }
    }
}

proof fn lemma_top_hit_range(ls: Seq<Layer>, n: int, x: int, y: int)
    requires
        0 <= n <= ls.len(),
    ensures
        top_hit(ls, n, x, y) matches Some(k) ==> 0 <= k < n && rect_has(bounds_of(ls[k]), x, y),
    decreases n,
{
    if n > 0 {
        lemma_top_hit_range(ls, n - 1, x, y);
    }
}


/// The desktop with its clock set.
pub open spec fn clocked(d: Desktop, ticks: u64) -> Desktop {
    Desktop { clock: ticks, ..d }
}

pub open spec fn layer_render_ok(l: Layer, theme: Theme) -> bool {
    match l {
        Layer::Desktop(d) => d.render_ok(theme),
        Layer::Window(w) => w.render_ok(theme),
    }
}

pub open spec fn layer_paint(p: Seq<u8>, l: Layer, theme: Theme, ticks: u64) -> Seq<u8> {
    match l {
        Layer::Desktop(d) => clocked(d, ticks).painted(p, theme),
        Layer::Window(w) => w.painted(p, theme),
    }
}

/// The frame after the layers are drawn, bottom first.
pub open spec fn layers_paint(p: Seq<u8>, ls: Seq<Layer>, theme: Theme, ticks: u64) -> Seq<u8>
    decreases ls.len(),
{
    if ls.len() == 0 {
        p
    } else {
        layer_paint(layers_paint(p, ls.drop_last(), theme, ticks), ls.last(), theme, ticks)
    }
}

impl Compositor {
    /// Draws every layer bottom first, the desktop's clock at `ticks`, then the pointer.
    pub fn render(&mut self, fb: &mut Framebuffer, theme: &Theme, cursor: &Cursor, ticks: u64)
        requires
            old(self).wf(),
            old(fb).wf(),
            forall|k: int| 0 <= k < old(self).layers@.len() ==> layer_render_ok(#[trigger] old(self).layers@[k], *theme),
            cursor.x + 8 <= 32768,
            cursor.y + 12 <= 32768,
        ensures
            final(self).wf(),
            final(fb).wf(),
            ids(final(self).layers@) == ids(old(self).layers@),
            final(self).focused_id == old(self).focused_id,
            final(self).drag_state == old(self).drag_state,
            final(fb)@ == if cursor.visible {
                paint(layers_paint(old(fb)@, old(self).layers@, *theme, ticks), cursor_brush(cursor.x as int, cursor.y as int))
            } else {
                layers_paint(old(fb)@, old(self).layers@, *theme, ticks)
            },
    {
        let ghost ls0 = self.layers@;
        let ghost p0 = fb@;
        let n = self.layers.len();
        let mut i: usize = 0;
        while i < n
            invariant
                fb.wf(),
                i <= n,
                n == ls0.len(),
                self.layers@.len() == n,
                ids(self.layers@) == ids(ls0),
                forall|k: int| 0 <= k < n ==> layer_ok(#[trigger] self.layers@[k]),
                forall|k: int| i <= k < n ==> self.layers@[k] == #[trigger] ls0[k],
                forall|k: int| 0 <= k < n ==> layer_render_ok(#[trigger] ls0[k], *theme),
                self.focused_id == old(self).focused_id,
                self.drag_state == old(self).drag_state,
                old(self).wf(),
                self.drag_state matches Some(d) ==> 0 <= d.offset_x <= 16000 && 0 <= d.offset_y <= 16000,
                fb@ == layers_paint(p0, ls0.take(i as int), *theme, ticks),
            decreases n - i,
        {
            let ghost before = self.layers@;
            let l = self.layers.remove(i);
            assert(l == ls0[i as int]);
            assert(layer_ok(l));
            let l2 = match l {
                Layer::Desktop(d) => {
                    let mut d = d;
                    d.clock = ticks;
                    d.draw(fb, theme);
                    Layer::Desktop(d)
                },
                Layer::Window(w) => {
                    let mut w = w;
                    w.draw(fb, theme);
                    Layer::Window(w)
                },
            };
            proof {
                assert(ls0.take(i + 1).drop_last() =~= ls0.take(i as int));
            }
            assert(layer_ok(l2));
            self.layers.insert(i, l2);
            proof {
                assert(self.layers@ =~= before.update(i as int, l2));
                assert(ids(self.layers@) =~= ids(ls0));
                assert forall|k: int| 0 <= k < n implies layer_ok(#[trigger] self.layers@[k]) by {
                    if k != i {
                        assert(self.layers@[k] == before[k]);
                    }
                }
            }
            i = i + 1;
        }
        assert(ls0.take(n as int) =~= ls0);
        cursor.render(fb);
    }
}

} // verus!
