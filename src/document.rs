//! Building the two documents: a numbered list of questions, and prose split into
//! paragraphs.
use vstd::prelude::*;
use crate::layout::{
    Geometry, Run, PageFlow, FlowState, RunView, pages_view, place_all, advance_spec,
    start_state, layout_ok, lemma_start_ok, lemma_place_all_ok, lemma_advance_ok, pages_extend,
    lemma_extend_refl, lemma_extend_trans, lemma_place_all_extends,
};
use crate::wrap::{wrap, wrap_spec, tokens, strings_view, lemma_wrap_empty};

verus! {

/// A finished document: its title and its pages of placed runs.
#[derive(Debug)]
pub struct Document {
    pub title: String,
    pub pages: Vec<Vec<Run>>,
}

impl Document {
    pub open spec fn pages_spec(&self) -> Seq<Seq<RunView>> {
        pages_view(self.pages@)
    }

    pub fn page_count(&self) -> (r: usize)
        ensures
            r == self.pages@.len(),
    {
        self.pages.len()
    }
}

pub open spec fn digit_char(d: nat) -> char {
    if d == 0 {
        '0'
    } else if d == 1 {
        '1'
    } else if d == 2 {
        '2'
    } else if d == 3 {
        '3'
    } else if d == 4 {
        '4'
    } else if d == 5 {
        '5'
    } else if d == 6 {
        '6'
    } else if d == 7 {
        '7'
    } else if d == 8 {
        '8'
    } else {
        '9'
    }
}

/// The decimal numeral of `n`.
pub open spec fn decimal(n: nat) -> Seq<char>
    decreases n,
{
    if n < 10 {
        seq![digit_char(n)]
    } else {
        decimal(n / 10).push(digit_char(n % 10))
    }
}

fn digit_str(d: usize) -> (r: &'static str)
    requires
        d < 10,
    ensures
        r@ == seq![digit_char(d as nat)],
{
    if d == 0 {
        proof { reveal_strlit("0"); }
        "0"
    } else if d == 1 {
        proof { reveal_strlit("1"); }
        "1"
    } else if d == 2 {
        proof { reveal_strlit("2"); }
        "2"
    } else if d == 3 {
        proof { reveal_strlit("3"); }
        "3"
    } else if d == 4 {
        proof { reveal_strlit("4"); }
        "4"
    } else if d == 5 {
        proof { reveal_strlit("5"); }
        "5"
    } else if d == 6 {
        proof { reveal_strlit("6"); }
        "6"
    } else if d == 7 {
        proof { reveal_strlit("7"); }
        "7"
    } else if d == 8 {
        proof { reveal_strlit("8"); }
        "8"
    } else {
        proof { reveal_strlit("9"); }
        "9"
    }
}

/// The decimal numeral of `n`.
pub fn decimal_string(n: usize) -> (r: String)
    ensures
        r@ == decimal(n as nat),
    decreases n,
{
    if n < 10 {
        String::from_str(digit_str(n))
    } else {
        let head = decimal_string(n / 10);
        let r = head.concat(digit_str(n % 10));
        proof {
            assert(r@ =~= decimal(n as nat));
        }
        r
    }
}

/// The text of item `i` of a numbered list: `"{i}. {q}"`.
pub open spec fn item_text(i: nat, q: Seq<char>) -> Seq<char> {
    decimal(i) + ". "@ + q
}

/// The text of item `i` of a numbered list.
pub fn numbered_item(i: usize, q: &str) -> (r: String)
    ensures
        r@ == item_text(i as nat, q@),
{
    decimal_string(i).concat(". ").concat(q)
}

pub open spec fn questions_title(name: Seq<char>) -> Seq<char> {
    name + " - Follow-up Questions"@
}

pub open spec fn analysis_title(name: Seq<char>) -> Seq<char> {
    name + " - SWOT Analysis"@
}

/// The layout after the first `qs.len()` questions: each is numbered from 1, wrapped and
/// placed line by line, and followed by the block gap.
pub open spec fn questions_state(g: Geometry, title: Seq<char>, qs: Seq<Seq<char>>) -> FlowState
    decreases qs.len(),
{
    if qs.len() == 0 {
        start_state(g, title)
    } else {
        let st = questions_state(g, title, qs.drop_last());
        let lines = wrap_spec(item_text(qs.len(), qs.last()), g.content_width as nat);
        advance_spec(place_all(st, g, lines, g.font_size), g, g.block_gap as int)
    }
}

/// The pages of the questions document of `name`.
pub open spec fn questions_layout(g: Geometry, name: Seq<char>, qs: Seq<Seq<char>>) -> Seq<
    Seq<RunView>,
> {
    questions_state(g, questions_title(name), qs).0
}

/// The layout after the paragraphs `ps`: a paragraph without words moves the cursor down
/// one line height; any other is wrapped, placed line by line and followed by the block gap.
pub open spec fn analysis_state(g: Geometry, title: Seq<char>, ps: Seq<Seq<char>>) -> FlowState
    decreases ps.len(),
{
    if ps.len() == 0 {
        start_state(g, title)
    } else {
        let st = analysis_state(g, title, ps.drop_last());
        let p = ps.last();
        if tokens(p).len() == 0 {
            advance_spec(st, g, g.line_height as int)
        } else {
            advance_spec(
                place_all(st, g, wrap_spec(p, g.content_width as nat), g.font_size),
                g,
                g.block_gap as int,
            )
        }
    }
}

/// The pieces of `s` between line feeds, as `str::split('\n')` gives them.
pub open spec fn split_lines(s: Seq<char>) -> Seq<Seq<char>>
    decreases s.len(),
{
    if s.len() == 0 {
        seq![seq![]]
    } else {
        let prev = split_lines(s.drop_last());
        if s.last() == '\n' {
            prev.push(seq![])
        } else {
            prev.update(prev.len() - 1, prev.last().push(s.last()))
        }
    }
}

/// The pages of the analysis document of `name` for the text `text`.
pub open spec fn analysis_layout(g: Geometry, name: Seq<char>, text: Seq<char>) -> Seq<
    Seq<RunView>,
> {
    analysis_state(g, analysis_title(name), split_lines(text)).0
}

/// Every layout of questions meets the layout invariant.
pub proof fn lemma_questions_ok(g: Geometry, title: Seq<char>, qs: Seq<Seq<char>>)
    requires
        g.wf(),
    ensures
        layout_ok(questions_state(g, title, qs), g),
    decreases qs.len(),
{
    if qs.len() == 0 {
        lemma_start_ok(g, title);
    } else {
        let st = questions_state(g, title, qs.drop_last());
        let lines = wrap_spec(item_text(qs.len(), qs.last()), g.content_width as nat);
        lemma_questions_ok(g, title, qs.drop_last());
        lemma_place_all_ok(st, g, lines, g.font_size);
        lemma_advance_ok(place_all(st, g, lines, g.font_size), g, g.block_gap as int);
    }
}

/// Every layout of prose meets the layout invariant.
pub proof fn lemma_analysis_ok(g: Geometry, title: Seq<char>, ps: Seq<Seq<char>>)
    requires
        g.wf(),
    ensures
        layout_ok(analysis_state(g, title, ps), g),
    decreases ps.len(),
{
    if ps.len() == 0 {
        lemma_start_ok(g, title);
    } else {
        let st = analysis_state(g, title, ps.drop_last());
        let p = ps.last();
        lemma_analysis_ok(g, title, ps.drop_last());
        if tokens(p).len() == 0 {
            lemma_advance_ok(st, g, g.line_height as int);
        } else {
            let lines = wrap_spec(p, g.content_width as nat);
            lemma_place_all_ok(st, g, lines, g.font_size);
            lemma_advance_ok(place_all(st, g, lines, g.font_size), g, g.block_gap as int);
        }
    }
}

/// Lays out the numbered questions document: the title, then each question as
/// `"{i}. {question}"`, wrapped, line by line, with a gap after each question.
pub fn build_questions_document(g: Geometry, questions: &Vec<String>, business_name: &str) -> (d:
    Document)
    requires
        g.wf(),
    ensures
        d.title@ == questions_title(business_name@),
        d.pages_spec() == questions_layout(g, business_name@, strings_view(questions@)),
        layout_ok(questions_state(g, d.title@, strings_view(questions@)), g),
{
    let ghost qs = strings_view(questions@);
    let title = String::from_str(business_name).concat(" - Follow-up Questions");
    let ghost tv = title@;
    let mut flow = PageFlow::new(g, title.clone());
    let n = questions.len();
    let mut i: usize = 0;
    while i < n
        invariant
            n == questions@.len(),
            qs == strings_view(questions@),
            i <= n,
            flow.wf(),
            flow.geometry == g,
            flow.state() == questions_state(g, tv, qs.take(i as int)),
        decreases n - i,
    {
        let item = numbered_item(i + 1, questions[i].as_str());
        let lines = wrap(item.as_str(), g.content_width);
        proof {
            assert(qs.take(i + 1).drop_last() =~= qs.take(i as int));
            assert(qs.take(i + 1).last() == questions@[i as int]@);
        }
        flow.place_lines(lines, g.font_size);
        flow.advance(g.block_gap);
        i = i + 1;
    }
    proof {
        assert(qs.take(n as int) =~= qs);
        lemma_questions_ok(g, tv, qs);
    }
    Document { title, pages: flow.pages }
}

/// The pieces of `text` between line feeds.
pub fn split_paragraphs(text: &str) -> (r: Vec<String>)
    ensures
        strings_view(r@) == split_lines(text@),
{
    let n = text.unicode_len();
    let mut done: Vec<String> = Vec::new();
    let mut start: usize = 0;
    let mut i: usize = 0;
    proof {
        assert(text@.take(0) =~= Seq::<char>::empty());
        assert(strings_view(done@).push(text@.subrange(0, 0)) =~= seq![Seq::<char>::empty()]);
    }
    while i < n
        invariant
            n == text@.len(),
            start <= i <= n,
            split_lines(text@.take(i as int)) == strings_view(done@).push(
                text@.subrange(start as int, i as int),
            ),
        decreases n - i,
    {
        let c = text.get_char(i);
        proof {
            assert(text@.take(i + 1).drop_last() =~= text@.take(i as int));
            assert(text@.take(i + 1).last() == c);
        }
        if c == '\n' {
            let w = String::from_str(text.substring_char(start, i));
            let ghost before = done@;
            done.push(w);
            start = i + 1;
            proof {
                assert(strings_view(done@) =~= strings_view(before).push(w@));
                assert(text@.subrange(start as int, i + 1) =~= Seq::<char>::empty());
            }
        } else {
            proof {
                assert(text@.subrange(start as int, i + 1) =~= text@.subrange(
                    start as int,
                    i as int,
                ).push(c));
            }
        }
        i = i + 1;
    }
    proof {
        assert(text@.take(n as int) =~= text@);
    }
    let w = String::from_str(text.substring_char(start, n));
    let ghost before = done@;
    done.push(w);
    proof {
        assert(strings_view(done@) =~= strings_view(before).push(w@));
    }
    done
}

/// Lays out the prose analysis document: the title, then each paragraph of `text`
/// (pieces between line feeds) wrapped and placed line by line with a gap after it; a
/// paragraph without words only moves the cursor down one line height.
pub fn build_analysis_document(g: Geometry, text: &str, business_name: &str) -> (d: Document)
    requires
        g.wf(),
    ensures
        d.title@ == analysis_title(business_name@),
        d.pages_spec() == analysis_layout(g, business_name@, text@),
        layout_ok(analysis_state(g, d.title@, split_lines(text@)), g),
{
    let paras = split_paragraphs(text);
    let ghost ps = split_lines(text@);
    let title = String::from_str(business_name).concat(" - SWOT Analysis");
    let ghost tv = title@;
    let mut flow = PageFlow::new(g, title.clone());
    let n = paras.len();
    let mut i: usize = 0;
    while i < n
        invariant
            n == paras@.len(),
            ps == strings_view(paras@),
            i <= n,
            flow.wf(),
            flow.geometry == g,
            flow.state() == analysis_state(g, tv, ps.take(i as int)),
        decreases n - i,
    {
        let lines = wrap(paras[i].as_str(), g.content_width);
        proof {
            assert(ps.take(i + 1).drop_last() =~= ps.take(i as int));
            assert(ps.take(i + 1).last() == paras@[i as int]@);
            lemma_wrap_empty(paras@[i as int]@, g.content_width as nat);
        }
        if lines.len() == 0 {
            flow.advance(g.line_height);
        } else {
            flow.place_lines(lines, g.font_size);
            flow.advance(g.block_gap);
        }
        i = i + 1;
    }
    proof {
        assert(ps.take(n as int) =~= ps);
        lemma_analysis_ok(g, tv, ps);
    }
    Document { title, pages: flow.pages }
}

/// Building is a function of its input: two builds of the same questions under the same
/// geometry and name lay out the same pages.
pub proof fn lemma_questions_deterministic(
    g: Geometry,
    name1: Seq<char>,
    qs1: Seq<Seq<char>>,
    name2: Seq<char>,
    qs2: Seq<Seq<char>>,
)
    requires
        name1 == name2,
        qs1 == qs2,
    ensures
        questions_layout(g, name1, qs1) == questions_layout(g, name2, qs2),
{
}

/// Building is a function of its input: two builds of the same text under the same
/// geometry and name lay out the same pages.
pub proof fn lemma_analysis_deterministic(
    g: Geometry,
    name1: Seq<char>,
    text1: Seq<char>,
    name2: Seq<char>,
    text2: Seq<char>,
)
    requires
        name1 == name2,
        text1 == text2,
    ensures
        analysis_layout(g, name1, text1) == analysis_layout(g, name2, text2),
{
}

/// The text of item `i` begins with the numeral of `i` followed by `". "`, and the rest is
/// the item's own text.
pub proof fn lemma_item_prefix(i: nat, q: Seq<char>)
    ensures
        item_text(i, q).subrange(0, decimal(i).len() + 2int) == decimal(i) + ". "@,
        item_text(i, q).subrange(decimal(i).len() + 2int, item_text(i, q).len() as int) == q,
{
    assert(". "@.len() == 2) by {
        reveal_strlit(". ");
    }
    assert(item_text(i, q).subrange(0, decimal(i).len() + 2int) =~= decimal(i) + ". "@);
    assert(item_text(i, q).subrange(decimal(i).len() + 2int, item_text(i, q).len() as int) =~= q);
}

/// Questions are laid out in input order onto pages that are only ever appended to: the
/// layout of the first `i` questions is continued, never rewritten, by the rest.
pub proof fn lemma_questions_append_only(g: Geometry, title: Seq<char>, qs: Seq<Seq<char>>, i: int)
    requires
        g.wf(),
        0 <= i <= qs.len(),
    ensures
        pages_extend(questions_state(g, title, qs.take(i)).0, questions_state(g, title, qs).0),
    decreases qs.len(),
{
    lemma_questions_ok(g, title, qs);
    if i == qs.len() {
        assert(qs.take(i) =~= qs);
        lemma_extend_refl(questions_state(g, title, qs).0);
    } else {
        let pre = qs.drop_last();
        assert(pre.take(i) =~= qs.take(i));
        lemma_questions_append_only(g, title, pre, i);
        let st = questions_state(g, title, pre);
        let lines = wrap_spec(item_text(qs.len(), qs.last()), g.content_width as nat);
        lemma_questions_ok(g, title, pre);
        lemma_place_all_extends(st, g, lines, g.font_size);
        lemma_extend_trans(
            questions_state(g, title, qs.take(i)).0,
            st.0,
            place_all(st, g, lines, g.font_size).0,
        );
    }
}

/// Paragraphs are laid out in input order onto pages that are only ever appended to: the
/// layout of the first `i` paragraphs is continued, never rewritten, by the rest.
pub proof fn lemma_analysis_append_only(g: Geometry, title: Seq<char>, ps: Seq<Seq<char>>, i: int)
    requires
        g.wf(),
        0 <= i <= ps.len(),
    ensures
        pages_extend(analysis_state(g, title, ps.take(i)).0, analysis_state(g, title, ps).0),
    decreases ps.len(),
{
    lemma_analysis_ok(g, title, ps);
    if i == ps.len() {
        assert(ps.take(i) =~= ps);
        lemma_extend_refl(analysis_state(g, title, ps).0);
    } else {
        let pre = ps.drop_last();
        assert(pre.take(i) =~= ps.take(i));
        lemma_analysis_append_only(g, title, pre, i);
        let st = analysis_state(g, title, pre);
        lemma_analysis_ok(g, title, pre);
        if tokens(ps.last()).len() != 0 {
            let lines = wrap_spec(ps.last(), g.content_width as nat);
            lemma_place_all_extends(st, g, lines, g.font_size);
            lemma_extend_trans(
                analysis_state(g, title, ps.take(i)).0,
                st.0,
                place_all(st, g, lines, g.font_size).0,
            );
        }
    }
}

} // verus!
