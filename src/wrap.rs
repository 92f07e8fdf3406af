//! Greedy word wrapping under a character-count width estimate.
use vstd::prelude::*;

verus! {

/// Unicode `White_Space`: the characters that separate words.
pub open spec fn is_ws(c: char) -> bool {
    let u = c as u32;
    (0x09 <= u && u <= 0x0d) || u == 0x20 || u == 0x85 || u == 0xa0 || u == 0x1680 || (0x2000
        <= u && u <= 0x200a) || u == 0x2028 || u == 0x2029 || u == 0x202f || u == 0x205f || u
        == 0x3000
}

pub fn is_whitespace_char(c: char) -> (r: bool)
    ensures
        r == is_ws(c),
{
    let u = c as u32;
    (0x09 <= u && u <= 0x0d) || u == 0x20 || u == 0x85 || u == 0xa0 || u == 0x1680 || (0x2000
        <= u && u <= 0x200a) || u == 0x2028 || u == 0x2029 || u == 0x202f || u == 0x205f || u
        == 0x3000
}

/// Scanning `s` left to right: the words completed so far and the word in progress.
pub open spec fn scan_words(s: Seq<char>) -> (Seq<Seq<char>>, Seq<char>)
    decreases s.len(),
{
    if s.len() == 0 {
        (seq![], seq![])
    } else {
        let (done, cur) = scan_words(s.drop_last());
        let c = s.last();
        if is_ws(c) {
            if cur.len() > 0 {
                (done.push(cur), seq![])
            } else {
                (done, seq![])
            }
        } else {
            (done, cur.push(c))
        }
    }
}

/// The whitespace-delimited words of `s`, in order.
pub open spec fn tokens(s: Seq<char>) -> Seq<Seq<char>> {
    let (done, cur) = scan_words(s);
    if cur.len() > 0 {
        done.push(cur)
    } else {
        done
    }
}

/// A word: non-empty and free of whitespace.
pub open spec fn is_word(w: Seq<char>) -> bool {
    w.len() > 0 && forall|j: int| 0 <= j < w.len() ==> !is_ws(#[trigger] w[j])
}

/// Estimated width of `n` characters, 2.2 units each, fits in `max_width`.
pub open spec fn fits(n: nat, max_width: nat) -> bool {
    n * 11 <= max_width * 5
}

/// `cur` extended by one more word, separated by a single space.
pub open spec fn extend(cur: Seq<char>, t: Seq<char>) -> Seq<char> {
    if cur.len() == 0 {
        t
    } else {
        cur + seq![' '] + t
    }
}

/// Greedy placement of `toks`: the committed lines and the line in progress.
pub open spec fn wrap_state(toks: Seq<Seq<char>>, max_width: nat) -> (Seq<Seq<char>>, Seq<char>)
    decreases toks.len(),
{
    if toks.len() == 0 {
        (seq![], seq![])
    } else {
        let (lines, cur) = wrap_state(toks.drop_last(), max_width);
        let t = toks.last();
        let cand = extend(cur, t);
        if fits(cand.len(), max_width) {
            (lines, cand)
        } else if cur.len() == 0 {
            (lines, t)
        } else {
            (lines.push(cur), t)
        }
    }
}

/// The lines that wrapping `s` at `max_width` produces.
pub open spec fn wrap_spec(s: Seq<char>, max_width: nat) -> Seq<Seq<char>> {
    let (lines, cur) = wrap_state(tokens(s), max_width);
    if cur.len() > 0 {
        lines.push(cur)
    } else {
        lines
    }
}

/// Lines joined with single spaces.
pub open spec fn join_spaced(xs: Seq<Seq<char>>) -> Seq<char>
    decreases xs.len(),
{
    if xs.len() == 0 {
        seq![]
    } else if xs.len() == 1 {
        xs[0]
    } else {
        join_spaced(xs.drop_last()) + seq![' '] + xs.last()
    }
}

pub open spec fn strings_view(v: Seq<String>) -> Seq<Seq<char>> {
    v.map_values(|x: String| x@)
}

proof fn lemma_scan_words(s: Seq<char>)
    ensures
        forall|i: int| 0 <= i < scan_words(s).0.len() ==> is_word(#[trigger] scan_words(s).0[i]),
        forall|j: int|
            0 <= j < scan_words(s).1.len() ==> !is_ws(#[trigger] scan_words(s).1[j]),
    decreases s.len(),
{
    if s.len() > 0 {
        lemma_scan_words(s.drop_last());
        let (done, cur) = scan_words(s.drop_last());
        let c = s.last();
        if !is_ws(c) {
            assert forall|j: int| 0 <= j < cur.push(c).len() implies !is_ws(#[trigger] cur.push(c)[j]) by {
                if j < cur.len() {
                    assert(cur.push(c)[j] == cur[j]);
                }
            }
        }
    }
}

/// Every token is a word.
pub proof fn lemma_tokens_are_words(s: Seq<char>)
    ensures
        forall|i: int| 0 <= i < tokens(s).len() ==> is_word(#[trigger] tokens(s)[i]),
{
    lemma_scan_words(s);
}

proof fn lemma_wrap_state(toks: Seq<Seq<char>>, w: nat)
    requires
        forall|i: int| 0 <= i < toks.len() ==> is_word(#[trigger] toks[i]),
    ensures
        ({
            let (lines, cur) = wrap_state(toks, w);
            &&& (cur.len() == 0 <==> toks.len() == 0)
            &&& cur.len() == 0 ==> lines.len() == 0
            &&& join_spaced(if cur.len() > 0 { lines.push(cur) } else { lines }) == join_spaced(toks)
            &&& forall|i: int| 0 <= i < lines.len() ==> (#[trigger] lines[i]).len() > 0
            &&& forall|i: int| 0 <= i < lines.len() ==> fits((#[trigger] lines[i]).len(), w) || is_word(lines[i])
            &&& fits(cur.len(), w) || is_word(cur)
        }),
    decreases toks.len(),
{
    if toks.len() > 0 {
        let pre = toks.drop_last();
        assert forall|i: int| 0 <= i < pre.len() implies is_word(#[trigger] pre[i]) by {
            assert(pre[i] == toks[i]);
        }
        lemma_wrap_state(pre, w);
        let (lines, cur) = wrap_state(pre, w);
        let t = toks.last();
        assert(is_word(toks[toks.len() - 1]));
        let cand = extend(cur, t);
        if cur.len() == 0 {
            assert(pre.len() == 0);
            assert(toks =~= seq![t]);
            assert(lines.push(t) =~= seq![t]);
        } else {
            let before = lines.push(cur);
            assert(join_spaced(before) == join_spaced(pre));
            if pre.len() == 1 {
                assert(join_spaced(toks) == join_spaced(pre) + seq![' '] + t);
            }
            assert(join_spaced(toks) == join_spaced(pre) + seq![' '] + t);
            if fits(cand.len(), w) {
                let after = lines.push(cand);
                assert(after.drop_last() =~= lines);
                if lines.len() == 0 {
                    assert(before =~= seq![cur]);
                    assert(join_spaced(after) == cand);
                } else {
                    assert(before.drop_last() =~= lines);
                    assert(join_spaced(before) == join_spaced(lines) + seq![' '] + cur);
                    assert(join_spaced(after) == join_spaced(lines) + seq![' '] + cand);
                }
                assert(join_spaced(after) =~= join_spaced(pre) + seq![' '] + t);
            } else {
                let after = lines.push(cur).push(t);
                assert(after.drop_last() =~= before);
                assert(join_spaced(after) == join_spaced(before) + seq![' '] + t);
                let nl = lines.push(cur);
                assert forall|i: int| 0 <= i < nl.len() implies fits((#[trigger] nl[i]).len(), w)
                    || is_word(nl[i]) by {
                    if i < lines.len() {
                        assert(nl[i] == lines[i]);
                    }
                }
                assert forall|i: int| 0 <= i < nl.len() implies (#[trigger] nl[i]).len() > 0 by {
                    if i < lines.len() {
                        assert(nl[i] == lines[i]);
                    }
                }
            }
        }
    }
}

/// Wrapping keeps every word, in order: the lines joined with single spaces are the
/// words of the input joined with single spaces.
pub proof fn lemma_wrap_keeps_words(s: Seq<char>, w: nat)
    requires
        w > 0,
    ensures
        join_spaced(wrap_spec(s, w)) == join_spaced(tokens(s)),
        forall|i: int| 0 <= i < wrap_spec(s, w).len() ==> (#[trigger] wrap_spec(s, w)[i]).len() > 0,
{
    lemma_tokens_are_words(s);
    lemma_wrap_state(tokens(s), w);
    let (lines, cur) = wrap_state(tokens(s), w);
    if cur.len() > 0 {
        assert forall|i: int| 0 <= i < lines.push(cur).len() implies (#[trigger] lines.push(cur)[i]).len() > 0 by {
            if i < lines.len() {
                assert(lines.push(cur)[i] == lines[i]);
            }
        }
    }
}

/// A line whose estimated width exceeds `w` is a single word.
pub proof fn lemma_wrap_fits(s: Seq<char>, w: nat)
    ensures
        forall|i: int|
            0 <= i < wrap_spec(s, w).len() ==> fits((#[trigger] wrap_spec(s, w)[i]).len(), w)
                || is_word(wrap_spec(s, w)[i]),
{
    lemma_tokens_are_words(s);
    lemma_wrap_state(tokens(s), w);
    let (lines, cur) = wrap_state(tokens(s), w);
    if cur.len() > 0 {
        assert forall|i: int| 0 <= i < lines.push(cur).len() implies fits(
            (#[trigger] lines.push(cur)[i]).len(),
            w,
        ) || is_word(lines.push(cur)[i]) by {
            if i < lines.len() {
                assert(lines.push(cur)[i] == lines[i]);
            }
        }
    }
}

/// Text that holds no word wraps to no lines.
pub proof fn lemma_wrap_empty(s: Seq<char>, w: nat)
    ensures
        wrap_spec(s, w).len() == 0 <==> tokens(s).len() == 0,
{
    lemma_tokens_are_words(s);
    lemma_wrap_state(tokens(s), w);
}

/// The whitespace-delimited words of `text`.
pub fn split_words(text: &str) -> (r: Vec<String>)
    ensures
        strings_view(r@) == tokens(text@),
{
    let n = text.unicode_len();
    let mut done: Vec<String> = Vec::new();
    let mut start: usize = 0;
    let mut i: usize = 0;
    while i < n
        invariant
            n == text@.len(),
            start <= i <= n,
            scan_words(text@.take(i as int)) == (strings_view(done@), text@.subrange(
                start as int,
                i as int,
            )),
        decreases n - i,
    {
        let c = text.get_char(i);
        proof {
            assert(text@.take(i + 1).drop_last() =~= text@.take(i as int));
            assert(text@.take(i + 1).last() == c);
        }
        if is_whitespace_char(c) {
            if start < i {
                let w = String::from_str(text.substring_char(start, i));
                let ghost before = done@;
                done.push(w);
                proof {
                    assert(strings_view(done@) =~= strings_view(before).push(w@));
                }
            }
            start = i + 1;
            proof {
                assert(text@.subrange(start as int, i + 1) =~= Seq::<char>::empty());
            }
        } else {
            proof {
                assert(text@.subrange(start as int, i + 1) =~= text@.subrange(
                    start as int,
                    i as int,
                ).push(c));
            }
        }
        i = i + 1;
    }
    proof {
        assert(text@.take(n as int) =~= text@);
    }
    if start < n {
        let w = String::from_str(text.substring_char(start, n));
        let ghost before = done@;
        done.push(w);
        proof {
            assert(strings_view(done@) =~= strings_view(before).push(w@));
        }
    }
    done
}

/// Estimated width of `n` characters fits in `max_width`.
pub fn fits_width(n: usize, max_width: u32) -> (r: bool)
    ensures
        r == fits(n as nat, max_width as nat),
{
    (n as u128) * 11 <= (max_width as u128) * 5
}

/// Splits `text` into lines: words joined by single spaces, a line closed when the
/// next word would make its estimated width exceed `max_width`. A word wider than
/// `max_width` stands alone on its line.
pub fn wrap(text: &str, max_width: u32) -> (r: Vec<String>)
    ensures
        strings_view(r@) == wrap_spec(text@, max_width as nat),
{
    let words = split_words(text);
    let ghost toks = tokens(text@);
    let mut lines: Vec<String> = Vec::new();
    let mut cur = String::new();
    let mut k: usize = 0;
    while k < words.len()
        invariant
            strings_view(words@) == toks,
            k <= words.len(),
            wrap_state(toks.take(k as int), max_width as nat) == (strings_view(lines@), cur@),
        decreases words.len() - k,
    {
        let t = &words[k];
        proof {
            assert(toks.take(k + 1).drop_last() =~= toks.take(k as int));
            assert(toks.take(k + 1).last() == t@);
        }
        let cand = if cur.as_str().unicode_len() == 0 {
            t.clone()
        } else {
            cur.clone().concat(" ").concat(t.as_str())
        };
        proof {
            reveal_strlit(" ");
            assert(cand@ =~= extend(cur@, t@));
        }
        if fits_width(cand.as_str().unicode_len(), max_width) {
            cur = cand;
        } else {
            if cur.as_str().unicode_len() != 0 {
                let ghost before = lines@;
                lines.push(cur);
                proof {
                    assert(strings_view(lines@) =~= strings_view(before).push(
                        lines@[lines@.len() - 1]@,
                    ));
                }
            }
            cur = t.clone();
        }
        k = k + 1;
    }
    proof {
        assert(toks.take(words.len() as int) =~= toks);
    }
    if cur.as_str().unicode_len() != 0 {
        let ghost before = lines@;
        lines.push(cur);
        proof {
            assert(strings_view(lines@) =~= strings_view(before).push(lines@[lines@.len() - 1]@));
        }
    }
    lines
}

} // verus!
