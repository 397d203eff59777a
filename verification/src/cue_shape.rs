//! The shape of segmented captions: every word lands in exactly one cue,
//! in order, and no cue breaks the layout's line rules.

use vstd::prelude::*;

use crate::reflow::{flat_words, lemma_words_of_lines, line_text, lines_text, plain_words, words_of};
use crate::segment::{
    break_spec, draft_spec, drafts_spec, fit_spec, flat_items, flush_spec, items_text, join_spec, line_items,
    lemma_normalize_from, normalize_from, normalize_spec, pack_from, pack_spec, pack_step, placed_spec,
    ends_sentence_spec, is_closer, strip_closers,
    segment_spec, sep_chars, PackState, SegmentOptions,
};
use crate::text::{is_ws, trim};

verus! {

/// A cue's word indices in reading order.
pub open spec fn flat_lines(lines: Seq<Seq<usize>>) -> Seq<usize>
    decreases lines.len(),
{
    if lines.len() == 0 {
        Seq::empty()
    } else {
        flat_lines(lines.drop_last()) + lines.last()
    }
}

/// Every cue's word indices, in order.
pub open spec fn flat_cues(cues: Seq<Seq<Seq<usize>>>) -> Seq<usize>
    decreases cues.len(),
{
    if cues.len() == 0 {
        Seq::empty()
    } else {
        flat_cues(cues.drop_last()) + flat_lines(cues.last())
    }
}

/// The indices `a..b`.
pub open spec fn index_range(a: int, b: int) -> Seq<usize> {
    Seq::new((b - a) as nat, |i: int| (a + i) as usize)
}

/// The characters of a line of words joined by single spaces.
pub open spec fn line_width(nw: Seq<(u32, u32, Seq<char>, int)>, line: Seq<usize>) -> int
    decreases line.len(),
{
    if line.len() == 0 {
        0
    } else if line.len() == 1 {
        nw[line[0] as int].2.len() as int
    } else {
        line_width(nw, line.drop_last()) + 1 + nw[line.last() as int].2.len()
    }
}

/// The most lines a cue may hold under `o`.
pub open spec fn line_cap(o: SegmentOptions) -> int {
    if o.layout.max_lines == 0 {
        1
    } else {
        o.layout.max_lines as int
    }
}

/// A line is not empty and fits the character budget, or is one word.
pub open spec fn line_ok(nw: Seq<(u32, u32, Seq<char>, int)>, o: SegmentOptions, line: Seq<usize>) -> bool {
    line.len() >= 1 && (line_width(nw, line) <= o.layout.max_chars_per_line || line.len() == 1)
}

/// A cue holds at least one and at most the allowed number of lines, each
/// [`line_ok`].
pub open spec fn cue_ok(nw: Seq<(u32, u32, Seq<char>, int)>, o: SegmentOptions, cue: Seq<Seq<usize>>) -> bool {
    &&& 1 <= cue.len() <= line_cap(o)
    &&& forall|j: int| 0 <= j < cue.len() ==> line_ok(nw, o, #[trigger] cue[j])
}

/// The packer's state is sound: empty, or a line in progress of the width
/// it records under finished lines that fit, with room for it.
pub open spec fn pack_state_ok(nw: Seq<(u32, u32, Seq<char>, int)>, o: SegmentOptions, st: PackState) -> bool {
    ||| (st.0.len() == 0 && st.1.len() == 0 && st.2 == 0)
    ||| {
        &&& st.1.len() >= 1
        &&& st.2 == line_width(nw, st.1)
        &&& line_ok(nw, o, st.1)
        &&& st.0.len() + 1 <= line_cap(o)
        &&& forall|j: int| 0 <= j < st.0.len() ==> line_ok(nw, o, #[trigger] st.0[j])
    }
}

proof fn lemma_flat_lines_push(lines: Seq<Seq<usize>>, l: Seq<usize>)
    ensures
        flat_lines(lines.push(l)) == flat_lines(lines) + l,
{
    assert(lines.push(l).drop_last() =~= lines);
}

proof fn lemma_flat_cues_concat(a: Seq<Seq<Seq<usize>>>, b: Seq<Seq<Seq<usize>>>)
    ensures
        flat_cues(a + b) == flat_cues(a) + flat_cues(b),
    decreases b.len(),
{
    if b.len() == 0 {
        assert(a + b =~= a);
        assert(flat_cues(a) + flat_cues(b) =~= flat_cues(a));
    } else {
        lemma_flat_cues_concat(a, b.drop_last());
        assert((a + b).drop_last() =~= a + b.drop_last());
        assert((a + b).last() == b.last());
        assert(flat_cues(a + b) =~= flat_cues(a) + flat_cues(b));
    }
}

proof fn lemma_line_width_push(nw: Seq<(u32, u32, Seq<char>, int)>, line: Seq<usize>, i: usize)
    ensures
        line_width(nw, line.push(i)) == if line.len() == 0 {
            nw[i as int].2.len() as int
        } else {
            line_width(nw, line) + 1 + nw[i as int].2.len()
        },
{
    assert(line.push(i).drop_last() =~= line);
}

/// What flushing a sound state emits: its lines, as one sound cue, or
/// nothing; and the same words in order.
proof fn lemma_flush_ok(nw: Seq<(u32, u32, Seq<char>, int)>, o: SegmentOptions, st: PackState)
    requires
        pack_state_ok(nw, o, st),
    ensures
        forall|c: int| 0 <= c < flush_spec(st).0.len() ==> cue_ok(nw, o, #[trigger] flush_spec(st).0[c]),
        flat_cues(flush_spec(st).0) == flat_lines(st.0) + st.1,
        flush_spec(st).1.0.len() == 0 && flush_spec(st).1.1.len() == 0 && flush_spec(st).1.2 == 0,
{
    let f = flush_spec(st);
    if st.1.len() == 0 {
        assert(flat_lines(st.0) =~= Seq::<usize>::empty());
        assert(flat_cues(f.0) =~= Seq::<usize>::empty());
        assert(flat_lines(st.0) + st.1 =~= Seq::<usize>::empty());
    } else {
        let lines = st.0.push(st.1);
        lemma_flat_lines_push(st.0, st.1);
        assert(f.0 == seq![lines]);
        assert(seq![lines].drop_last() =~= Seq::<Seq<Seq<usize>>>::empty());
        assert(flat_cues(Seq::<Seq<Seq<usize>>>::empty()) =~= Seq::<usize>::empty());
        assert(seq![lines].last() == lines);
        assert(flat_cues(f.0) =~= flat_lines(lines));
        assert forall|j: int| 0 <= j < lines.len() implies line_ok(nw, o, #[trigger] lines[j]) by {
            if j < st.0.len() {
                assert(lines[j] == st.0[j]);
            }
        }
    }
}

/// Packing from word `idx` in a sound state gives sound cues holding the
/// state's words and then every word from `idx` on, in order.
pub proof fn lemma_pack_shape(nw: Seq<(u32, u32, Seq<char>, int)>, o: SegmentOptions, idx: int, st: PackState)
    requires
        0 <= idx <= nw.len(),
        nw.len() <= usize::MAX,
        pack_state_ok(nw, o, st),
        forall|k: int| 0 <= k < nw.len() ==> (#[trigger] nw[k]).2.len() > 0,
    ensures
        forall|c: int|
            0 <= c < pack_from(nw, o, idx, st).len() ==> cue_ok(nw, o, #[trigger] pack_from(nw, o, idx, st)[c]),
        flat_cues(pack_from(nw, o, idx, st)) == flat_lines(st.0) + st.1 + index_range(idx, nw.len() as int),
    decreases nw.len() - idx,
{
    if idx >= nw.len() {
        lemma_flush_ok(nw, o, st);
        assert(index_range(idx, nw.len() as int) =~= Seq::<usize>::empty());
        assert(flat_lines(st.0) + st.1 + index_range(idx, nw.len() as int) =~= flat_lines(st.0) + st.1);
    } else {
        let b = break_spec(nw, o, idx, st);
        let f = fit_spec(nw, o, idx, b.1);
        let j = join_spec(nw, idx, f.1);
        let w = nw[idx].2;
        // After the break.
        let broke = !(st.0.len() == 0 && st.1.len() == 0) && b != (Seq::<Seq<Seq<usize>>>::empty(), st);
        if b.0.len() > 0 || b.1 != st {
            lemma_flush_ok(nw, o, st);
            assert(b == flush_spec(st));
        } else {
            assert(flat_cues(b.0) =~= Seq::<usize>::empty());
        }
        assert(pack_state_ok(nw, o, b.1));
        assert(forall|c: int| 0 <= c < b.0.len() ==> cue_ok(nw, o, #[trigger] b.0[c]));
        assert(flat_cues(b.0) + flat_lines(b.1.0) + b.1.1 == flat_lines(st.0) + st.1) by {
            if !(b.0.len() > 0 || b.1 != st) {
                assert(flat_cues(b.0) + flat_lines(b.1.0) + b.1.1 =~= flat_lines(st.0) + st.1);
            } else {
                assert(flat_lines(b.1.0) =~= Seq::<usize>::empty());
                assert(flat_cues(b.0) + flat_lines(b.1.0) + b.1.1 =~= flat_cues(b.0));
            }
        }
        // After the fit.
        let bs = b.1;
        let over = bs.1.len() > 0 && bs.2 + 1 + w.len() > o.layout.max_chars_per_line;
        if over && bs.0.len() + 1 >= line_cap(o) {
            lemma_flush_ok(nw, o, bs);
            assert(f == flush_spec(bs));
        } else if over {
            let l2 = bs.0.push(bs.1);
            lemma_flat_lines_push(bs.0, bs.1);
            assert(f.1 == (l2, Seq::<usize>::empty(), 0int, bs.3));
            assert forall|q: int| 0 <= q < l2.len() implies line_ok(nw, o, #[trigger] l2[q]) by {
                if q < bs.0.len() {
                    assert(l2[q] == bs.0[q]);
                }
            }
            assert(flat_cues(f.0) =~= Seq::<usize>::empty());
            assert(flat_cues(f.0) + flat_lines(f.1.0) + f.1.1 =~= flat_lines(bs.0) + bs.1);
        } else {
            assert(f == (Seq::<Seq<Seq<usize>>>::empty(), bs));
            assert(flat_cues(f.0) =~= Seq::<usize>::empty());
            assert(flat_cues(f.0) + flat_lines(f.1.0) + f.1.1 =~= flat_lines(bs.0) + bs.1);
        }
        assert(forall|c: int| 0 <= c < f.0.len() ==> cue_ok(nw, o, #[trigger] f.0[c]));
        assert(flat_cues(f.0) + flat_lines(f.1.0) + f.1.1 == flat_lines(bs.0) + bs.1) by {
            if over && bs.0.len() + 1 >= line_cap(o) {
                assert(flat_lines(f.1.0) =~= Seq::<usize>::empty());
                assert(flat_cues(f.0) + flat_lines(f.1.0) + f.1.1 =~= flat_cues(f.0));
            }
        }
        // After the join.
        let fs = f.1;
        assert(fs.1.len() == 0 ==> fs.2 == 0);
        assert(fs.1.len() > 0 ==> fs.2 + 1 + w.len() <= o.layout.max_chars_per_line && fs.2 == line_width(nw, fs.1));
        lemma_line_width_push(nw, fs.1, idx as usize);
        assert(j.1 == fs.1.push(idx as usize));
        assert(j.0 == fs.0);
        assert(fs.0.len() + 1 <= line_cap(o));
        assert(forall|q: int| 0 <= q < fs.0.len() ==> line_ok(nw, o, #[trigger] fs.0[q]));
        assert(pack_state_ok(nw, o, j));
        lemma_pack_shape(nw, o, idx + 1, j);
        let p = pack_step(nw, o, idx, st);
        assert(p.0 == b.0 + f.0 && p.1 == j);
        lemma_flat_cues_concat(b.0, f.0);
        let rest = pack_from(nw, o, idx + 1, j);
        lemma_flat_cues_concat(p.0, rest);
        assert forall|c: int| 0 <= c < pack_from(nw, o, idx, st).len() implies cue_ok(
            nw,
            o,
            #[trigger] pack_from(nw, o, idx, st)[c],
        ) by {
            let all = p.0 + rest;
            assert(pack_from(nw, o, idx, st) == all);
            if c < b.0.len() {
                assert(all[c] == b.0[c]);
            } else if c < p.0.len() {
                assert(all[c] == f.0[c - b.0.len()]);
            } else {
                assert(all[c] == rest[c - p.0.len()]);
            }
        }
        assert(index_range(idx, nw.len() as int) =~= seq![idx as usize] + index_range(idx + 1, nw.len() as int));
        assert(flat_cues(pack_from(nw, o, idx, st)) =~= flat_lines(st.0) + st.1 + index_range(idx, nw.len() as int));
    }
}

/// The words of line `line`.
pub open spec fn word_texts(nw: Seq<(u32, u32, Seq<char>, int)>, line: Seq<usize>) -> Seq<Seq<char>> {
    Seq::new(line.len(), |j: int| nw[line[j] as int].2)
}

/// The words of each line of a cue.
pub open spec fn line_texts(nw: Seq<(u32, u32, Seq<char>, int)>, lines: Seq<Seq<usize>>) -> Seq<Seq<Seq<char>>> {
    Seq::new(lines.len(), |i: int| word_texts(nw, lines[i]))
}

proof fn lemma_items_concat(nw: Seq<(u32, u32, Seq<char>, int)>, a: Seq<(usize, u8)>, b: Seq<(usize, u8)>)
    ensures
        items_text(nw, a + b) == items_text(nw, a) + items_text(nw, b),
    decreases b.len(),
{
    if b.len() == 0 {
        assert(a + b =~= a);
        assert(items_text(nw, a) + items_text(nw, b) =~= items_text(nw, a));
    } else {
        lemma_items_concat(nw, a, b.drop_last());
        assert((a + b).drop_last() =~= a + b.drop_last());
        assert((a + b).last() == b.last());
        assert(items_text(nw, a + b) =~= items_text(nw, a) + items_text(nw, b));
    }
}

proof fn lemma_line_items_text(nw: Seq<(u32, u32, Seq<char>, int)>, line: Seq<usize>, first: bool)
    requires
        line.len() >= 1,
    ensures
        items_text(nw, line_items(line, first)) == (if first {
            Seq::<char>::empty()
        } else {
            seq!['\n']
        }) + line_text(word_texts(nw, line)),
    decreases line.len(),
{
    let items = line_items(line, first);
    if line.len() == 1 {
        assert(items.drop_last() =~= Seq::<(usize, u8)>::empty());
        assert(items_text(nw, Seq::<(usize, u8)>::empty()) =~= Seq::<char>::empty());
        assert(items_text(nw, items) =~= sep_chars(items[0].1) + nw[line[0] as int].2);
    } else {
        let init = line.drop_last();
        lemma_line_items_text(nw, init, first);
        assert(items.drop_last() =~= line_items(init, first));
        assert(word_texts(nw, line).drop_last() =~= word_texts(nw, init));
        let head: Seq<char> = if first {
            Seq::<char>::empty()
        } else {
            seq!['\n']
        };
        assert(items_text(nw, items) =~= head + line_text(word_texts(nw, line)));
    }
}

/// A cue's text is its lines, each its words joined by single spaces,
/// joined by newlines.
pub proof fn lemma_cue_text(nw: Seq<(u32, u32, Seq<char>, int)>, lines: Seq<Seq<usize>>)
    requires
        forall|j: int| 0 <= j < lines.len() ==> (#[trigger] lines[j]).len() >= 1,
    ensures
        items_text(nw, flat_items(lines)) == lines_text(line_texts(nw, lines)),
    decreases lines.len(),
{
    if lines.len() == 0 {
        assert(items_text(nw, flat_items(lines)) =~= lines_text(line_texts(nw, lines)));
    } else {
        let init = lines.drop_last();
        lemma_cue_text(nw, init);
        lemma_items_concat(nw, flat_items(init), line_items(lines.last(), lines.len() == 1));
        lemma_line_items_text(nw, lines.last(), lines.len() == 1);
        let lt = line_texts(nw, lines);
        assert(lt.drop_last() =~= line_texts(nw, init));
        assert(lt.last() == word_texts(nw, lines.last()));
        if lines.len() == 1 {
            assert(init =~= Seq::<Seq<usize>>::empty());
            assert(items_text(nw, flat_items(init)) =~= Seq::<char>::empty());
            assert(items_text(nw, flat_items(lines)) =~= lines_text(lt));
        } else {
            assert(items_text(nw, flat_items(lines)) =~= lines_text(lt));
        }
    }
}

/// The words of a cue's lines are the words its indices name.
proof fn lemma_flat_texts(nw: Seq<(u32, u32, Seq<char>, int)>, lines: Seq<Seq<usize>>)
    ensures
        flat_words(line_texts(nw, lines)) == word_texts(nw, flat_lines(lines)),
    decreases lines.len(),
{
    if lines.len() > 0 {
        lemma_flat_texts(nw, lines.drop_last());
        assert(line_texts(nw, lines).drop_last() =~= line_texts(nw, lines.drop_last()));
        assert(flat_words(line_texts(nw, lines)) =~= word_texts(nw, flat_lines(lines)));
    } else {
        assert(flat_words(line_texts(nw, lines)) =~= word_texts(nw, flat_lines(lines)));
    }
}

/// A line's width is the length of its text.
proof fn lemma_line_width_text(nw: Seq<(u32, u32, Seq<char>, int)>, line: Seq<usize>)
    ensures
        line_width(nw, line) == line_text(word_texts(nw, line)).len(),
    decreases line.len(),
{
    if line.len() >= 2 {
        lemma_line_width_text(nw, line.drop_last());
        assert(word_texts(nw, line).drop_last() =~= word_texts(nw, line.drop_last()));
    }
}

/// Every word of every cue, in order.
pub open spec fn cue_words(v: Seq<(Seq<char>, crate::time::TimeRange, Seq<(u32, u32, u32, u32)>)>) -> Seq<Seq<char>>
    decreases v.len(),
{
    if v.len() == 0 {
        Seq::empty()
    } else {
        cue_words(v.drop_last()) + words_of(v.last().0)
    }
}

/// The input words that are not blank, trimmed, in order.
pub open spec fn spoken_from(ws: Seq<(u32, u32, Seq<char>)>, i: int) -> Seq<Seq<char>>
    decreases ws.len() - i,
{
    if i < 0 || i >= ws.len() {
        Seq::empty()
    } else if trim(ws[i].2).len() == 0 {
        spoken_from(ws, i + 1)
    } else {
        seq![trim(ws[i].2)] + spoken_from(ws, i + 1)
    }
}

proof fn lemma_normalized_texts(ws: Seq<(u32, u32, Seq<char>)>, i: int, prev_end: u32)
    requires
        0 <= i <= ws.len(),
    ensures
        Seq::new(normalize_from(ws, i, prev_end).len(), |k: int| normalize_from(ws, i, prev_end)[k].2)
            == spoken_from(ws, i),
        forall|k: int|
            0 <= k < normalize_from(ws, i, prev_end).len() ==> exists|j: int|
                i <= j < ws.len() && #[trigger] normalize_from(ws, i, prev_end)[k].2 == trim(ws[j].2),
    decreases ws.len() - i,
{
    if i < ws.len() {
        let t = trim(ws[i].2);
        if t.len() == 0 {
            lemma_normalized_texts(ws, i + 1, prev_end);
        } else {
            let s = if ws[i].0 >= prev_end {
                ws[i].0
            } else {
                prev_end
            };
            let e = if ws[i].1 >= s {
                ws[i].1
            } else {
                s
            };
            lemma_normalized_texts(ws, i + 1, e);
            let n = normalize_from(ws, i, prev_end);
            let r = normalize_from(ws, i + 1, e);
            assert(n == seq![(s, e, t, i)] + r);
            assert(Seq::new(n.len(), |k: int| n[k].2) =~= seq![t] + Seq::new(r.len(), |k: int| r[k].2));
            assert forall|k: int| 0 <= k < n.len() implies exists|j: int|
                i <= j < ws.len() && #[trigger] n[k].2 == trim(ws[j].2) by {
                if k == 0 {
                    assert(n[0].2 == trim(ws[i].2));
                } else {
                    assert(n[k] == r[k - 1]);
                }
            }
        }
    } else {
        assert(Seq::new(normalize_from(ws, i, prev_end).len(), |k: int| normalize_from(ws, i, prev_end)[k].2)
            =~= spoken_from(ws, i));
    }
}

/// Cue words over the placed cues follow the packed cues' indices.
proof fn lemma_cue_words(
    nw: Seq<(u32, u32, Seq<char>, int)>,
    v: Seq<(Seq<char>, crate::time::TimeRange, Seq<(u32, u32, u32, u32)>)>,
    packed: Seq<Seq<Seq<usize>>>,
    n: int,
)
    requires
        0 <= n <= v.len(),
        v.len() == packed.len(),
        forall|c: int| 0 <= c < v.len() ==> (#[trigger] v[c]).0 == lines_text(line_texts(nw, packed[c])),
        forall|c: int, i: int|
            0 <= c < packed.len() && 0 <= i < packed[c].len() ==> plain_words(#[trigger] line_texts(nw, packed[c])[i]),
    ensures
        cue_words(v.take(n)) == word_texts(nw, flat_cues(packed.take(n))),
    decreases n,
{
    if n == 0 {
        assert(cue_words(v.take(0)) =~= Seq::<Seq<char>>::empty());
        assert(flat_cues(packed.take(0)) =~= Seq::<usize>::empty());
        assert(word_texts(nw, flat_cues(packed.take(0))) =~= Seq::<Seq<char>>::empty());
    } else {
        lemma_cue_words(nw, v, packed, n - 1);
        assert(v.take(n).drop_last() =~= v.take(n - 1));
        assert(packed.take(n).drop_last() =~= packed.take(n - 1));
        lemma_words_of_lines(line_texts(nw, packed[n - 1]));
        lemma_flat_texts(nw, packed[n - 1]);
        assert(cue_words(v.take(n)) =~= word_texts(nw, flat_cues(packed.take(n))));
    }
}

/// Segmentation keeps every word, in order, within the layout's lines.
///
/// When the recognized words have no whitespace inside their trimmed text
/// and segmentation succeeds, the cues hold, in order, exactly the input
/// words that are not blank, trimmed. Each cue's text is its lines joined by
/// newlines, each line its words joined by single spaces; a cue has at least
/// one and at most the layout's number of lines (at least one), and each
/// line fits the character budget unless it is a single word.
pub proof fn law_segment_keeps_words(ws: Seq<(u32, u32, Seq<char>)>, o: SegmentOptions)
    requires
        segment_spec(ws, o) is Ok,
        ws.len() <= usize::MAX,
        forall|i: int, j: int| 0 <= i < ws.len() && 0 <= j < trim(ws[i].2).len() ==> !is_ws(#[trigger] trim(ws[i].2)[j]),
    ensures
        ({
            let v = segment_spec(ws, o)->Ok_0;
            &&& cue_words(v) == spoken_from(ws, 0)
            &&& forall|c: int|
                0 <= c < v.len() ==> {
                    let ls = #[trigger] line_texts(normalize_spec(ws), pack_spec(normalize_spec(ws), o)[c]);
                    &&& v[c].0 == lines_text(ls)
                    &&& words_of(v[c].0) == word_texts(
                        normalize_spec(ws),
                        flat_lines(pack_spec(normalize_spec(ws), o)[c]),
                    )
                    &&& 1 <= ls.len() <= line_cap(o)
                    &&& forall|i: int|
                        0 <= i < ls.len() ==> (#[trigger] ls[i]).len() >= 1 && (line_text(ls[i]).len()
                            <= o.layout.max_chars_per_line || ls[i].len() == 1)
                }
        }),
{
    let nw = normalize_spec(ws);
    let v = segment_spec(ws, o)->Ok_0;
    lemma_normalize_from(ws, 0, 0);
    lemma_normalized_texts(ws, 0, 0);
    if nw.len() == 0 {
        assert(v.len() == 0);
        assert(cue_words(v) =~= Seq::<Seq<char>>::empty());
        assert(spoken_from(ws, 0) =~= Seq::new(nw.len(), |k: int| nw[k].2));
    } else {
        let packed = pack_spec(nw, o);
        lemma_normalize_len(ws, 0, 0);
        let st0: PackState = (Seq::empty(), Seq::empty(), 0, 0);
        assert(pack_state_ok(nw, o, st0));
        lemma_pack_shape(nw, o, 0, st0);
        let ds = drafts_spec(nw, packed, o.layout);
        assert(v == placed_spec(ds, o.placement, o.layout.min_gap_ms));
        assert forall|c: int, i: int| 0 <= c < packed.len() && 0 <= i < packed[c].len() implies plain_words(
            #[trigger] line_texts(nw, packed[c])[i],
        ) by {
            assert(cue_ok(nw, o, packed[c]));
            {
                let line = packed[c][i];
                assert(line_ok(nw, o, line));
                assert forall|k: int| 0 <= k < line.len() implies (#[trigger] word_texts(nw, line)[k]).len() > 0
                    && forall|j: int| 0 <= j < word_texts(nw, line)[k].len() ==> !is_ws(#[trigger] word_texts(nw, line)[k][j]) by {
                    assert(flat_cues(packed) == index_range(0, nw.len() as int));
                    lemma_index_in_range(nw, packed, c, i, k);
                    let q = line[k] as int;
                    let wj = choose|j: int| 0 <= j < ws.len() && #[trigger] nw[q].2 == trim(ws[j].2);
                    assert(nw[q].2 == trim(ws[wj].2));
                }
            }
        }
        assert forall|c: int| 0 <= c < v.len() implies (#[trigger] v[c]).0 == lines_text(line_texts(nw, packed[c])) by {
            assert(cue_ok(nw, o, packed[c]));
            lemma_cue_text(nw, packed[c]);
            assert(v[c].0 == ds[c].0);
            assert(ds[c] == draft_spec(nw, packed[c], o.layout));
        }
        lemma_cue_words(nw, v, packed, v.len() as int);
        assert(v.take(v.len() as int) =~= v);
        assert(packed.take(packed.len() as int) =~= packed);
        assert(word_texts(nw, index_range(0, nw.len() as int)) =~= Seq::new(nw.len(), |k: int| nw[k].2));
        assert forall|c: int| 0 <= c < v.len() implies {
            let ls = #[trigger] line_texts(normalize_spec(ws), pack_spec(normalize_spec(ws), o)[c]);
            &&& v[c].0 == lines_text(ls)
            &&& words_of(v[c].0) == word_texts(
                normalize_spec(ws),
                flat_lines(pack_spec(normalize_spec(ws), o)[c]),
            )
            &&& 1 <= ls.len() <= line_cap(o)
            &&& forall|i: int|
                0 <= i < ls.len() ==> (#[trigger] ls[i]).len() >= 1 && (line_text(ls[i]).len()
                    <= o.layout.max_chars_per_line || ls[i].len() == 1)
        } by {
            assert(cue_ok(nw, o, packed[c]));
            let ls = line_texts(nw, packed[c]);
            lemma_words_of_lines(ls);
            lemma_flat_texts(nw, packed[c]);
            assert forall|i: int| 0 <= i < ls.len() implies (#[trigger] ls[i]).len() >= 1 && (line_text(ls[i]).len()
                <= o.layout.max_chars_per_line || ls[i].len() == 1) by {
                assert(line_ok(nw, o, packed[c][i]));
                lemma_line_width_text(nw, packed[c][i]);
            }
        }
    }
}

proof fn lemma_normalize_len(ws: Seq<(u32, u32, Seq<char>)>, i: int, prev_end: u32)
    requires
        0 <= i <= ws.len(),
    ensures
        normalize_from(ws, i, prev_end).len() <= ws.len() - i,
    decreases ws.len() - i,
{
    if i < ws.len() {
        let t = trim(ws[i].2);
        if t.len() == 0 {
            lemma_normalize_len(ws, i + 1, prev_end);
        } else {
            let s = if ws[i].0 >= prev_end {
                ws[i].0
            } else {
                prev_end
            };
            let e = if ws[i].1 >= s {
                ws[i].1
            } else {
                s
            };
            lemma_normalize_len(ws, i + 1, e);
        }
    }
}

/// An index a packed cue names is a word index.
proof fn lemma_index_in_range(
    nw: Seq<(u32, u32, Seq<char>, int)>,
    packed: Seq<Seq<Seq<usize>>>,
    c: int,
    i: int,
    k: int,
)
    requires
        flat_cues(packed) == index_range(0, nw.len() as int),
        0 <= c < packed.len(),
        0 <= i < packed[c].len(),
        0 <= k < packed[c][i].len(),
    ensures
        packed[c][i][k] < nw.len(),
{
    lemma_flat_member(packed, c, i, k);
    let x = packed[c][i][k];
    let p = choose|p: int| 0 <= p < flat_cues(packed).len() && flat_cues(packed)[p] == x;
    assert(flat_cues(packed)[p] == (0 + p) as usize);
}

/// Every index a cue names occurs in the flattened indices.
proof fn lemma_flat_member(packed: Seq<Seq<Seq<usize>>>, c: int, i: int, k: int)
    requires
        0 <= c < packed.len(),
        0 <= i < packed[c].len(),
        0 <= k < packed[c][i].len(),
    ensures
        exists|p: int| 0 <= p < flat_cues(packed).len() && flat_cues(packed)[p] == packed[c][i][k],
    decreases packed.len(),
{
    let init = packed.drop_last();
    if c < packed.len() - 1 {
        assert(init[c] == packed[c]);
        lemma_flat_member(init, c, i, k);
        let p = choose|p: int| 0 <= p < flat_cues(init).len() && flat_cues(init)[p] == packed[c][i][k];
        assert(flat_cues(packed)[p] == flat_cues(init)[p]);
    } else {
        lemma_flat_lines_member(packed[c], i, k);
        let p = choose|p: int| 0 <= p < flat_lines(packed[c]).len() && flat_lines(packed[c])[p] == packed[c][i][k];
        assert(flat_cues(packed)[flat_cues(init).len() + p] == flat_lines(packed[c])[p]);
    }
}

proof fn lemma_flat_lines_member(lines: Seq<Seq<usize>>, i: int, k: int)
    requires
        0 <= i < lines.len(),
        0 <= k < lines[i].len(),
    ensures
        exists|p: int| 0 <= p < flat_lines(lines).len() && flat_lines(lines)[p] == lines[i][k],
    decreases lines.len(),
{
    let init = lines.drop_last();
    if i < lines.len() - 1 {
        assert(init[i] == lines[i]);
        lemma_flat_lines_member(init, i, k);
        let p = choose|p: int| 0 <= p < flat_lines(init).len() && flat_lines(init)[p] == lines[i][k];
        assert(flat_lines(lines)[p] == flat_lines(init)[p]);
    } else {
        assert(flat_lines(lines)[flat_lines(init).len() + k] == lines[i][k]);
    }
}

/// A character that ends a sentence: `.`, `!`, `?`, `…`, `。`, `！` or `？`.
pub open spec fn stop_char(c: char) -> bool {
    c == '.' || c == '!' || c == '?' || c == '\u{2026}' || c == '\u{3002}' || c == '\u{ff01}' || c == '\u{ff1f}'
}

/// A closing quote or bracket: `"`, `'`, `)`, `]`, `»`, `”` or `’`.
pub open spec fn closing_char(c: char) -> bool {
    c == '"' || c == '\'' || c == ')' || c == ']' || c == '\u{bb}' || c == '\u{201d}' || c == '\u{2019}'
}

/// `w` ends a sentence: past any closing quotes and brackets, its last
/// character is a sentence stop.
pub open spec fn ends_with_stop(w: Seq<char>) -> bool {
    exists|k: int|
        0 < k <= w.len() && stop_char(#[trigger] w[k - 1]) && forall|j: int| k <= j < w.len() ==> closing_char(w[j])
}

proof fn lemma_strip_to(w: Seq<char>, k: int)
    requires
        0 < k <= w.len(),
        stop_char(w[k - 1]),
        forall|j: int| k <= j < w.len() ==> closing_char(w[j]),
    ensures
        strip_closers(w) == w.take(k),
    decreases w.len() - k,
{
    if w.len() > k {
        assert(is_closer(w.last()));
        assert(w.drop_last()[k - 1] == w[k - 1]);
        assert forall|j: int| k <= j < w.drop_last().len() implies closing_char(w.drop_last()[j]) by {
            assert(w.drop_last()[j] == w[j]);
        }
        lemma_strip_to(w.drop_last(), k);
        assert(w.drop_last().take(k) =~= w.take(k));
    } else {
        assert(!is_closer(w.last()));
        assert(w.take(k) =~= w);
    }
}

/// A word that ends with a sentence stop ends a sentence for the packer.
proof fn lemma_stop_ends_sentence(w: Seq<char>)
    requires
        ends_with_stop(w),
    ensures
        ends_sentence_spec(w),
{
    let k = choose|k: int|
        0 < k <= w.len() && stop_char(#[trigger] w[k - 1]) && forall|j: int| k <= j < w.len() ==> closing_char(w[j]);
    lemma_strip_to(w, k);
    assert(w.take(k).last() == w[k - 1]);
}

/// No word but the last of `seq` ends a sentence.
pub open spec fn stops_only_last(nw: Seq<(u32, u32, Seq<char>, int)>, seq: Seq<usize>) -> bool {
    forall|j: int| 0 <= j < seq.len() - 1 ==> !ends_sentence_spec(nw[(#[trigger] seq[j]) as int].2)
}

/// What flushing emits holds exactly the state's words.
proof fn lemma_flush_words(st: PackState)
    ensures
        forall|c: int| 0 <= c < flush_spec(st).0.len() ==> flat_lines(#[trigger] flush_spec(st).0[c]) == flat_lines(st.0)
            + st.1,
        flush_spec(st).1.0.len() == 0 && flush_spec(st).1.1.len() == 0,
{
    if st.1.len() > 0 {
        lemma_flat_lines_push(st.0, st.1);
    } else {
        assert(flat_lines(st.0) + st.1 =~= flat_lines(st.0));
    }
}

/// With sentence breaking on, packing never lets a sentence-ending word be
/// followed by another word of the same cue.
proof fn lemma_pack_sentences(nw: Seq<(u32, u32, Seq<char>, int)>, o: SegmentOptions, idx: int, st: PackState, a: int)
    requires
        o.break_on_sentence,
        0 <= a <= idx <= nw.len(),
        nw.len() <= usize::MAX,
        flat_lines(st.0) + st.1 == index_range(a, idx),
        stops_only_last(nw, flat_lines(st.0) + st.1),
    ensures
        forall|c: int|
            0 <= c < pack_from(nw, o, idx, st).len() ==> stops_only_last(nw, flat_lines(#[trigger] pack_from(nw, o, idx, st)[c])),
    decreases nw.len() - idx,
{
    if idx >= nw.len() {
        lemma_flush_words(st);
    } else {
        let b = break_spec(nw, o, idx, st);
        let f = fit_spec(nw, o, idx, b.1);
        let jn = join_spec(nw, idx, f.1);
        let content = flat_lines(st.0) + st.1;
        // The break.
        if b != (Seq::<Seq<Seq<usize>>>::empty(), st) {
            assert(b == flush_spec(st));
            lemma_flush_words(st);
        }
        let bs = b.1;
        let bc = flat_lines(bs.0) + bs.1;
        assert(bc == content || bc.len() == 0) by {
            if b != (Seq::<Seq<Seq<usize>>>::empty(), st) {
                assert(flat_lines(bs.0) =~= Seq::<usize>::empty());
                assert(bc =~= Seq::<usize>::empty());
            }
        }
        assert(bc.len() > 0 ==> !ends_sentence_spec(nw[idx - 1].2)) by {
            if bc.len() > 0 {
                assert(b == (Seq::<Seq<Seq<usize>>>::empty(), st));
                if st.0.len() == 0 && st.1.len() == 0 {
                    assert(flat_lines(st.0) =~= Seq::<usize>::empty());
                    assert(content.len() == 0);
                }
            }
        }
        // The fit.
        let over = bs.1.len() > 0 && bs.2 + 1 + nw[idx].2.len() > o.layout.max_chars_per_line;
        if over && bs.0.len() + 1 >= line_cap(o) {
            assert(f == flush_spec(bs));
            lemma_flush_words(bs);
        } else if over {
            lemma_flat_lines_push(bs.0, bs.1);
            assert(flat_lines(f.1.0) + f.1.1 =~= bc);
        } else {
            assert(f == (Seq::<Seq<Seq<usize>>>::empty(), bs));
        }
        let fc = flat_lines(f.1.0) + f.1.1;
        assert(fc == bc || fc.len() == 0) by {
            if over && bs.0.len() + 1 >= line_cap(o) {
                assert(flat_lines(f.1.0) =~= Seq::<usize>::empty());
                assert(fc =~= Seq::<usize>::empty());
            }
        }
        // The join.
        let jc = flat_lines(jn.0) + jn.1;
        assert(jn.0 == f.1.0 && jn.1 == f.1.1.push(idx as usize));
        assert(jc =~= fc.push(idx as usize));
        let a2: int = if fc.len() == 0 {
            idx
        } else {
            a
        };
        assert(fc == index_range(a2, idx)) by {
            if fc.len() > 0 {
                assert(fc == content);
            } else {
                assert(fc =~= index_range(idx, idx));
            }
        }
        assert(jc =~= index_range(a2, idx + 1));
        assert(stops_only_last(nw, jc)) by {
            assert forall|j: int| 0 <= j < jc.len() - 1 implies !ends_sentence_spec(nw[(#[trigger] jc[j]) as int].2) by {
                assert(jc[j] == fc[j]);
                if j < fc.len() - 1 {
                    assert(fc[j] == content[j]);
                } else {
                    assert(fc[j] == (idx - 1) as usize);
                }
            }
        }
        lemma_pack_sentences(nw, o, idx + 1, jn, a2);
        let p = pack_step(nw, o, idx, st);
        let rest = pack_from(nw, o, idx + 1, jn);
        assert forall|c: int| 0 <= c < pack_from(nw, o, idx, st).len() implies stops_only_last(
            nw,
            flat_lines(#[trigger] pack_from(nw, o, idx, st)[c]),
        ) by {
            let all = p.0 + rest;
            assert(pack_from(nw, o, idx, st) == all);
            if c < b.0.len() {
                assert(all[c] == b.0[c]);
            } else if c < p.0.len() {
                assert(all[c] == f.0[c - b.0.len()]);
                assert(flat_lines(f.0[c - b.0.len()]) == bc);
            } else {
                assert(all[c] == rest[c - p.0.len()]);
            }
        }
    }
}

/// With sentence breaking on, a word that ends a sentence (its last
/// character, past any closing quotes and brackets, is `.`, `!`, `?`, `…`,
/// `。`, `！` or `？`) is the last word of its cue: the next word starts a new
/// cue.
pub proof fn law_sentence_ends_cue(ws: Seq<(u32, u32, Seq<char>)>, o: SegmentOptions)
    requires
        segment_spec(ws, o) is Ok,
        o.break_on_sentence,
        ws.len() <= usize::MAX,
        forall|i: int, j: int| 0 <= i < ws.len() && 0 <= j < trim(ws[i].2).len() ==> !is_ws(#[trigger] trim(ws[i].2)[j]),
    ensures
        ({
            let v = segment_spec(ws, o)->Ok_0;
            forall|c: int, j: int|
                0 <= c < v.len() && 0 <= j < words_of(v[c].0).len() - 1 ==> !ends_with_stop(
                    #[trigger] words_of(v[c].0)[j],
                )
        }),
{
    let v = segment_spec(ws, o)->Ok_0;
    let nw = normalize_spec(ws);
    law_segment_keeps_words(ws, o);
    if nw.len() > 0 {
        let packed = pack_spec(nw, o);
        lemma_normalize_len(ws, 0, 0);
        let st0: PackState = (Seq::empty(), Seq::empty(), 0, 0);
        assert(flat_lines(st0.0) + st0.1 =~= index_range(0, 0));
        lemma_pack_sentences(nw, o, 0, st0, 0);
        assert forall|c: int, j: int| 0 <= c < v.len() && 0 <= j < words_of(v[c].0).len() - 1 implies !ends_with_stop(
            #[trigger] words_of(v[c].0)[j],
        ) by {
            let ls = line_texts(nw, packed[c]);
            let fl = flat_lines(packed[c]);
            assert(words_of(v[c].0) == word_texts(nw, fl));
            assert(stops_only_last(nw, fl));
            assert(!ends_sentence_spec(nw[fl[j] as int].2));
            if ends_with_stop(words_of(v[c].0)[j]) {
                lemma_stop_ends_sentence(words_of(v[c].0)[j]);
            }
        }
    } else {
        assert(v.len() == 0);
    }
}

} // verus!
