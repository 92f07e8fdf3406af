//! Page flow: placing wrapped lines onto fixed-size pages, opening a page when the
//! cursor has fallen below the bottom margin.
use vstd::prelude::*;

verus! {

/// Fixed page geometry, in millimetres (fonts in points).
#[derive(Clone, Copy, Debug)]
pub struct Geometry {
    pub page_width: u32,
    pub page_height: u32,
    pub left_margin: u32,
    pub top_margin: u32,
    pub bottom_margin: u32,
    pub title_y: u32,
    pub title_gap: u32,
    pub title_font_size: u32,
    pub content_width: u32,
    pub font_size: u32,
    pub line_height: u32,
    pub block_gap: u32,
}

impl Geometry {
    pub open spec fn wf(&self) -> bool {
        self.bottom_margin < self.top_margin <= self.page_height
    }

    /// Layout of the numbered questions document.
    pub fn questions() -> (g: Geometry)
        ensures
            g.wf(),
            g == (Geometry {
                page_width: 210,
                page_height: 297,
                left_margin: 10,
                top_margin: 260,
                bottom_margin: 40,
                title_y: 270,
                title_gap: 20,
                title_font_size: 16,
                content_width: 240,
                font_size: 12,
                line_height: 8,
                block_gap: 4,
            }),
    {
        Geometry {
            page_width: 210,
            page_height: 297,
            left_margin: 10,
            top_margin: 260,
            bottom_margin: 40,
            title_y: 270,
            title_gap: 20,
            title_font_size: 16,
            content_width: 240,
            font_size: 12,
            line_height: 8,
            block_gap: 4,
        }
    }

    /// Layout of the prose analysis document.
    pub fn analysis() -> (g: Geometry)
        ensures
            g.wf(),
            g == (Geometry {
                page_width: 210,
                page_height: 297,
                left_margin: 10,
                top_margin: 260,
                bottom_margin: 40,
                title_y: 270,
                title_gap: 20,
                title_font_size: 16,
                content_width: 240,
                font_size: 10,
                line_height: 7,
                block_gap: 3,
            }),
    {
        Geometry {
            page_width: 210,
            page_height: 297,
            left_margin: 10,
            top_margin: 260,
            bottom_margin: 40,
            title_y: 270,
            title_gap: 20,
            title_font_size: 16,
            content_width: 240,
            font_size: 10,
            line_height: 7,
            block_gap: 3,
        }
    }
}

/// A run of text placed with its origin at `(x, y)`, measured from the page's bottom left.
#[derive(Debug)]
pub struct Run {
    pub text: String,
    pub font_size: u32,
    pub x: u32,
    pub y: i64,
}

pub type RunView = (Seq<char>, u32, u32, int);

impl View for Run {
    type V = RunView;

    open spec fn view(&self) -> RunView {
        (self.text@, self.font_size, self.x, self.y as int)
    }
}

pub open spec fn page_view(p: Vec<Run>) -> Seq<RunView> {
    p@.map_values(|r: Run| r@)
}

pub open spec fn pages_view(ps: Seq<Vec<Run>>) -> Seq<Seq<RunView>> {
    ps.map_values(|p: Vec<Run>| page_view(p))
}

/// The state of a layout: the pages so far and the vertical cursor.
pub type FlowState = (Seq<Seq<RunView>>, int);

/// Places one line: a new page first when the cursor is below the bottom margin, then a
/// run at the left margin and the cursor, which then moves down one line height.
pub open spec fn place_spec(st: FlowState, g: Geometry, text: Seq<char>, size: u32) -> FlowState {
    let (pages, y) = if st.1 < g.bottom_margin {
        (st.0.push(seq![]), g.top_margin as int)
    } else {
        st
    };
    (pages.update(pages.len() - 1, pages.last().push((text, size, g.left_margin, y))), y
        - g.line_height)
}

/// Moves the cursor down by `d`. A cursor already below the bottom margin is left where it
/// is: the next line opens a new page either way.
pub open spec fn advance_spec(st: FlowState, g: Geometry, d: int) -> FlowState {
    if st.1 < g.bottom_margin {
        st
    } else {
        (st.0, st.1 - d)
    }
}

/// Places `lines` in order.
pub open spec fn place_all(st: FlowState, g: Geometry, lines: Seq<Seq<char>>, size: u32) -> FlowState
    decreases lines.len(),
{
    if lines.len() == 0 {
        st
    } else {
        place_spec(place_all(st, g, lines.drop_last(), size), g, lines.last(), size)
    }
}

/// One page holding the title, with the cursor below it.
pub open spec fn start_state(g: Geometry, title: Seq<char>) -> FlowState {
    (
        seq![seq![(title, g.title_font_size, g.left_margin, g.title_y as int)]],
        g.top_margin - g.title_gap,
    )
}

/// The layout invariant: every page holds a run; every run but the title lies at the left
/// margin within the printable band; every page after the first starts at the top margin;
/// the cursor never rises above the top margin.
pub open spec fn layout_ok(st: FlowState, g: Geometry) -> bool {
    let pages = st.0;
    &&& pages.len() > 0
    &&& st.1 <= g.top_margin
    &&& forall|p: int| 0 <= p < pages.len() ==> (#[trigger] pages[p]).len() > 0
    &&& forall|p: int, k: int|
        0 <= p < pages.len() && 0 <= k < pages[p].len() && (p, k) != (0int, 0int) ==> {
            let r = #[trigger] pages[p][k];
            &&& g.bottom_margin <= r.3 <= g.top_margin
            &&& r.2 == g.left_margin
        }
    &&& forall|p: int| 0 < p < pages.len() ==> (#[trigger] pages[p])[0].3 == g.top_margin
}

pub proof fn lemma_start_ok(g: Geometry, title: Seq<char>)
    requires
        g.wf(),
    ensures
        layout_ok(start_state(g, title), g),
{
}

pub proof fn lemma_place_ok(st: FlowState, g: Geometry, text: Seq<char>, size: u32)
    requires
        g.wf(),
        layout_ok(st, g),
    ensures
        layout_ok(place_spec(st, g, text, size), g),
        place_spec(st, g, text, size).0.len() == st.0.len() + if st.1 < g.bottom_margin {
            1int
        } else {
            0int
        },
{
    let (pages, y) = if st.1 < g.bottom_margin {
        (st.0.push(seq![]), g.top_margin as int)
    } else {
        st
    };
    let np = pages.update(pages.len() - 1, pages.last().push((text, size, g.left_margin, y)));
    assert forall|p: int| 0 <= p < np.len() implies (#[trigger] np[p]).len() > 0 by {
        if p < st.0.len() {
            assert(st.0[p].len() > 0);
        }
    }
    assert forall|p: int, k: int|
        0 <= p < np.len() && 0 <= k < np[p].len() && (p, k) != (0int, 0int) implies {
        let r = #[trigger] np[p][k];
        &&& g.bottom_margin <= r.3 <= g.top_margin
        &&& r.2 == g.left_margin
    } by {
        if p == np.len() - 1 && k == np[p].len() - 1 {
        } else {
            assert(np[p][k] == st.0[p][k]);
        }
    }
    assert forall|p: int| 0 < p < np.len() implies (#[trigger] np[p])[0].3 == g.top_margin by {
        if p < st.0.len() {
            assert(np[p][0] == st.0[p][0]);
        }
    }
}

/// Pages are only ever appended: placing a line leaves every earlier page as it was and
/// only extends the last one. A page is opened exactly when the cursor has fallen below the
/// bottom margin, that is when the line's origin would otherwise leave the printable band.
pub proof fn lemma_place_appends(st: FlowState, g: Geometry, text: Seq<char>, size: u32)
    requires
        g.wf(),
        layout_ok(st, g),
    ensures
        ({
            let next = place_spec(st, g, text, size).0;
            let last = st.0.len() - 1;
            &&& next.len() == st.0.len() + if st.1 < g.bottom_margin {
                1int
            } else {
                0int
            }
            &&& forall|p: int| 0 <= p < last ==> #[trigger] next[p] == st.0[p]
            &&& next[last].len() >= st.0[last].len()
            &&& next[last].take(st.0[last].len() as int) == st.0[last]
        }),
{
    let next = place_spec(st, g, text, size).0;
    let last = st.0.len() - 1;
    assert(next[last].take(st.0[last].len() as int) =~= st.0[last]);
}

pub proof fn lemma_place_all_ok(st: FlowState, g: Geometry, lines: Seq<Seq<char>>, size: u32)
    requires
        g.wf(),
        layout_ok(st, g),
    ensures
        layout_ok(place_all(st, g, lines, size), g),
        place_all(st, g, lines, size).0.len() >= st.0.len(),
    decreases lines.len(),
{
    if lines.len() > 0 {
        lemma_place_all_ok(st, g, lines.drop_last(), size);
        lemma_place_ok(place_all(st, g, lines.drop_last(), size), g, lines.last(), size);
    }
}

/// `b` continues `a`: every page of `a` but its last is kept, and its last page is a prefix
/// of the page at the same place in `b`.
pub open spec fn pages_extend(a: Seq<Seq<RunView>>, b: Seq<Seq<RunView>>) -> bool {
    &&& a.len() > 0
    &&& b.len() >= a.len()
    &&& forall|p: int| 0 <= p < a.len() - 1 ==> #[trigger] b[p] == a[p]
    &&& b[a.len() - 1].len() >= a[a.len() - 1].len()
    &&& b[a.len() - 1].take(a[a.len() - 1].len() as int) == a[a.len() - 1]
}

pub proof fn lemma_extend_refl(a: Seq<Seq<RunView>>)
    requires
        a.len() > 0,
    ensures
        pages_extend(a, a),
{
    assert(a[a.len() - 1].take(a[a.len() - 1].len() as int) =~= a[a.len() - 1]);
}

pub proof fn lemma_extend_trans(a: Seq<Seq<RunView>>, b: Seq<Seq<RunView>>, c: Seq<Seq<RunView>>)
    requires
        pages_extend(a, b),
        pages_extend(b, c),
    ensures
        pages_extend(a, c),
{
    let la = a.len() - 1;
    let lb = b.len() - 1;
    assert forall|p: int| 0 <= p < la implies #[trigger] c[p] == a[p] by {
        assert(b[p] == a[p]);
    }
    if la < lb {
        assert(c[la] == b[la]);
    } else {
        assert(c[la].take(a[la].len() as int) =~= c[la].take(b[la].len() as int).take(
            a[la].len() as int,
        ));
    }
}

/// Placing lines only appends to the pages.
pub proof fn lemma_place_all_extends(st: FlowState, g: Geometry, lines: Seq<Seq<char>>, size: u32)
    requires
        g.wf(),
        layout_ok(st, g),
    ensures
        pages_extend(st.0, place_all(st, g, lines, size).0),
    decreases lines.len(),
{
    if lines.len() == 0 {
        lemma_extend_refl(st.0);
    } else {
        let mid = place_all(st, g, lines.drop_last(), size);
        lemma_place_all_extends(st, g, lines.drop_last(), size);
        lemma_place_all_ok(st, g, lines.drop_last(), size);
        lemma_place_appends(mid, g, lines.last(), size);
        lemma_extend_trans(st.0, mid.0, place_all(st, g, lines, size).0);
    }
}

pub proof fn lemma_advance_ok(st: FlowState, g: Geometry, d: int)
    requires
        g.wf(),
        layout_ok(st, g),
        d >= 0,
    ensures
        layout_ok(advance_spec(st, g, d), g),
        advance_spec(st, g, d).0 == st.0,
{
}

/// The page flow of one document build: the pages so far and the cursor.
pub struct PageFlow {
    pub geometry: Geometry,
    pub pages: Vec<Vec<Run>>,
    pub cursor: i64,
}

impl PageFlow {
    pub open spec fn state(&self) -> FlowState {
        (pages_view(self.pages@), self.cursor as int)
    }

    pub open spec fn wf(&self) -> bool {
        &&& self.geometry.wf()
        &&& self.pages@.len() > 0
        &&& -0x1_0000_0000 <= self.cursor <= self.geometry.top_margin
    }

    /// A flow whose first page holds the title run.
    pub fn new(g: Geometry, title: String) -> (f: PageFlow)
        requires
            g.wf(),
        ensures
            f.wf(),
            f.geometry == g,
            f.state() == start_state(g, title@),
    {
        let ghost tv = title@;
        let run = Run { text: title, font_size: g.title_font_size, x: g.left_margin, y: g.title_y as i64 };
        let mut first: Vec<Run> = Vec::new();
        first.push(run);
        let mut pages: Vec<Vec<Run>> = Vec::new();
        pages.push(first);
        let f = PageFlow {
            geometry: g,
            pages,
            cursor: g.top_margin as i64 - g.title_gap as i64,
        };
        proof {
            assert(page_view(f.pages@[0]) =~= seq![(tv, g.title_font_size, g.left_margin, g.title_y as int)]);
            assert(f.state().0 =~= start_state(g, tv).0);
        }
        f
    }

    /// Places one line at the cursor, opening a new page first when the cursor is below
    /// the bottom margin.
    pub fn place_line(&mut self, text: String, font_size: u32)
        requires
            old(self).wf(),
        ensures
            final(self).wf(),
            final(self).geometry == old(self).geometry,
            final(self).state() == place_spec(old(self).state(), old(self).geometry, text@, font_size),
    {
        let g = self.geometry;
        let ghost pre = self.state();
        let ghost tv = text@;
        if self.cursor < g.bottom_margin as i64 {
            let ghost before = self.pages@;
            self.pages.push(Vec::new());
            self.cursor = g.top_margin as i64;
            proof {
                assert(page_view(self.pages@[self.pages@.len() - 1]) =~= Seq::<RunView>::empty());
                assert(pages_view(self.pages@) =~= pages_view(before).push(seq![]));
            }
        }
        let ghost mid = self.state();
        let y = self.cursor;
        let ghost before = self.pages@;
        let mut page = match self.pages.pop() {
            Some(p) => p,
            None => Vec::new(),
        };
        let ghost pv = page@;
        page.push(Run { text, font_size, x: g.left_margin, y });
        self.pages.push(page);
        self.cursor = y - g.line_height as i64;
        proof {
            assert(page_view(page) =~= page_view(before.last()).push((tv, font_size, g.left_margin, y as int)));
            assert(self.pages@ =~= before.drop_last().push(page));
            assert(pages_view(self.pages@) =~= mid.0.update(mid.0.len() - 1, mid.0.last().push((tv, font_size, g.left_margin, y as int))));
        }
    }

    /// Moves the cursor down by `d`, unless it is already below the bottom margin.
    pub fn advance(&mut self, d: u32)
        requires
            old(self).wf(),
        ensures
            final(self).wf(),
            final(self).geometry == old(self).geometry,
            final(self).pages == old(self).pages,
            final(self).state() == advance_spec(old(self).state(), old(self).geometry, d as int),
    {
        if self.cursor >= self.geometry.bottom_margin as i64 {
            self.cursor = self.cursor - d as i64;
        }
    }

    /// Places each of `lines` in order.
    pub fn place_lines(&mut self, lines: Vec<String>, font_size: u32)
        requires
            old(self).wf(),
        ensures
            final(self).wf(),
            final(self).geometry == old(self).geometry,
            final(self).state() == place_all(
                old(self).state(),
                old(self).geometry,
                lines@.map_values(|x: String| x@),
                font_size,
            ),
    {
        let ghost ls = lines@.map_values(|x: String| x@);
        let ghost st0 = self.state();
        let g = self.geometry;
        let n = lines.len();
        let mut k: usize = 0;
        let mut rest = lines;
        // Lines are taken from a reversed copy so that each is moved, not cloned.
        let mut rev: Vec<String> = Vec::new();
        while rest.len() > 0
            invariant
                rest@.len() + rev@.len() == n,
                forall|j: int| 0 <= j < rest@.len() ==> ls[j] == (#[trigger] rest@[j])@,
                forall|j: int| 0 <= j < rev@.len() ==> ls[n - 1 - j] == (#[trigger] rev@[j])@,
                ls.len() == n,
            decreases rest@.len(),
        {
            let x = match rest.pop() {
                Some(x) => x,
                None => String::new(),
            };
            rev.push(x);
        }
        while k < n
            invariant
                self.wf(),
                self.geometry == g,
                k <= n,
                rev@.len() == n - k,
                ls.len() == n,
                forall|j: int| 0 <= j < rev@.len() ==> ls[n - 1 - j] == (#[trigger] rev@[j])@,
                self.state() == place_all(st0, g, ls.take(k as int), font_size),
            decreases n - k,
        {
            let x = match rev.pop() {
                Some(x) => x,
                None => String::new(),
            };
            proof {
                assert(ls.take(k + 1).drop_last() =~= ls.take(k as int));
                assert(ls.take(k + 1).last() == ls[k as int]);
            }
            self.place_line(x, font_size);
            k = k + 1;
        }
        proof {
            assert(ls.take(n as int) =~= ls);
        }
    }
}

} // verus!
