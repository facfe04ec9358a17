//! The segmenter: split one document into a target number of chunks,
//! cutting at line breaks when possible, falling back to `.` and then `?`,
//! and never dropping trailing content.
//!
//! The delimiters are tried in a fixed priority order.  When even the
//! fallback delimiters cannot give every requested chunk at least one
//! segment, a window still holds at least one segment, so a request for
//! more chunks than there are segments yields fewer chunks.  When no
//! delimiter groups the text at all, the raw line split is returned
//! unmodified, marked as ungrouped.

use crate::split::{split_spec, join_spec, split_chars, join_range, append_chars, contains_char,
    lemma_split_len, lemma_join_of_split, lemma_join_push, lemma_join_concat, lemma_split_concat,
    lemma_split_absent, lemma_split_free_of_delimiter, lemma_split_of_join};
use vstd::prelude::*;

verus! {

/// The chunk count actually used: a request for zero chunks is treated as
/// a request for one.
pub open spec fn effective_count(n: usize) -> nat {
    if n == 0 {
        1nat
    } else {
        n as nat
    }
}

/// How many segments one window holds: `seg_count / n`, but at least one.
pub open spec fn window_size(seg_count: nat, n: nat) -> nat {
    if seg_count / n == 0 {
        1nat
    } else {
        seg_count / n
    }
}

/// The segments grouped into windows of `size`, each window joined with
/// `d` into one chunk; the last window may be shorter.
pub open spec fn grouped_chunks(segs: Seq<Seq<char>>, size: nat, d: char) -> Seq<Seq<char>>
    decreases segs.len(),
{
    if size == 0 || segs.len() == 0 {
        Seq::<Seq<char>>::empty()
    } else if segs.len() <= size {
        seq![join_spec(segs, d)]
    } else {
        seq![join_spec(segs.take(size as int), d)] + grouped_chunks(
            segs.skip(size as int),
            size,
            d,
        )
    }
}

/// The last two chunks joined with `d` into one; fewer than two chunks
/// are left as they are.
pub open spec fn merge_last_two(chunks: Seq<Seq<char>>, d: char) -> Seq<Seq<char>> {
    if chunks.len() < 2 {
        chunks
    } else {
        chunks.take(chunks.len() - 2).push(
            chunks[chunks.len() - 2] + seq![d] + chunks[chunks.len() - 1],
        )
    }
}

/// The chunks made from `segs` for a requested count `n`: fixed windows,
/// and when the segment count does not divide evenly, the last two chunks
/// merged so that no tiny trailing chunk is left behind.
pub open spec fn chunks_of(segs: Seq<Seq<char>>, n: nat, d: char) -> Seq<Seq<char>>
    recommends
        n >= 1,
{
    let grouped = grouped_chunks(segs, window_size(segs.len(), n), d);
    if segs.len() as int % (n as int) == 0 {
        grouped
    } else {
        merge_last_two(grouped, d)
    }
}

/// Whether the line split already gives every requested chunk at least
/// one line.
pub open spec fn seg_uses_lines(text: Seq<char>, n: nat) -> bool {
    split_spec(text, '\n').len() >= n
}

/// Whether any delimiter in the preference order groups the text.
pub open spec fn seg_grouped(text: Seq<char>, n: nat) -> bool {
    seg_uses_lines(text, n) || text.contains('.') || text.contains('?')
}

/// The delimiter the preference order selects: line break, then `.`,
/// then `?`.  In the ungrouped case the line break is reported, since the
/// result is the raw line split.
pub open spec fn seg_delimiter(text: Seq<char>, n: nat) -> char {
    if seg_uses_lines(text, n) {
        '\n'
    } else if text.contains('.') {
        '.'
    } else if text.contains('?') {
        '?'
    } else {
        '\n'
    }
}

/// The chunk list the segmenter owes for `text` and requested count `n`.
pub open spec fn seg_chunks(text: Seq<char>, n: nat) -> Seq<Seq<char>>
    recommends
        n >= 1,
{
    if seg_grouped(text, n) {
        chunks_of(split_spec(text, seg_delimiter(text, n)), n, seg_delimiter(text, n))
    } else {
        split_spec(text, '\n')
    }
}

/// The segments that the chunks stand for: each chunk split back on the
/// delimiter, all pieces in order.
pub open spec fn chunk_segments(chunks: Seq<Seq<char>>, d: char) -> Seq<Seq<char>>
    decreases chunks.len(),
{
    if chunks.len() == 0 {
        Seq::<Seq<char>>::empty()
    } else {
        chunk_segments(chunks.drop_last(), d) + split_spec(chunks.last(), d)
    }
}

/// A nonempty segment list yields at least one chunk.
pub proof fn lemma_grouped_nonempty(segs: Seq<Seq<char>>, size: nat, d: char)
    requires
        size >= 1,
        segs.len() >= 1,
    ensures
        grouped_chunks(segs, size, d).len() >= 1,
{
}

/// Joining the grouped chunks gives the same text as joining the
/// segments directly: grouping loses nothing.
pub proof fn lemma_grouped_join(segs: Seq<Seq<char>>, size: nat, d: char)
    requires
        size >= 1,
        segs.len() >= 1,
    ensures
        join_spec(grouped_chunks(segs, size, d), d) == join_spec(segs, d),
    decreases segs.len(),
{
    if segs.len() <= size {
        assert(grouped_chunks(segs, size, d) == seq![join_spec(segs, d)]);
    } else {
        let take = segs.take(size as int);
        let skip = segs.skip(size as int);
        lemma_grouped_join(skip, size, d);
        lemma_grouped_nonempty(skip, size, d);
        let head = seq![join_spec(take, d)];
        let rest = grouped_chunks(skip, size, d);
        lemma_join_concat(head, rest, d);
        assert(join_spec(head, d) == join_spec(take, d));
        lemma_join_concat(take, skip, d);
        assert(take + skip =~= segs);
    }
}

/// Merging the last two chunks never changes the joined text.
pub proof fn lemma_merge_join(cs: Seq<Seq<char>>, d: char)
    ensures
        join_spec(merge_last_two(cs, d), d) == join_spec(cs, d),
{
    if cs.len() >= 2 {
        let l = cs.len() as int;
        let x = cs[l - 2] + seq![d] + cs[l - 1];
        let merged = cs.take(l - 2).push(x);
        if cs.len() == 2 {
            assert(merged =~= seq![x]);
            assert(join_spec(merged, d) == x);
            assert(cs.drop_last() =~= seq![cs[0]]);
            assert(join_spec(cs, d) == join_spec(cs.drop_last(), d) + seq![d] + cs.last());
            assert(join_spec(cs.drop_last(), d) == cs[0]);
            assert(x =~= cs[0] + seq![d] + cs[1]);
        } else {
            let front = cs.take(l - 2);
            let back = cs.skip(l - 2);
            lemma_join_push(front, x, d);
            assert(join_spec(merged, d) == join_spec(front, d) + seq![d] + x);
            lemma_join_concat(front, back, d);
            assert(front + back =~= cs);
            assert(back.drop_last() =~= seq![cs[l - 2]]);
            assert(back.last() == cs[l - 1]);
            assert(join_spec(seq![cs[l - 2]], d) == cs[l - 2]);
            assert(join_spec(back, d) == cs[l - 2] + seq![d] + cs[l - 1]);
            assert(join_spec(front, d) + seq![d] + (cs[l - 2] + seq![d] + cs[l - 1]) =~= (
            join_spec(front, d) + seq![d] + cs[l - 2]) + seq![d] + cs[l - 1]);
            assert(join_spec(front, d) + seq![d] + x =~= join_spec(front, d) + seq![d] + (cs[l - 2]
                + seq![d] + cs[l - 1]));
        }
    }
}

/// The chunks made for any requested count rejoin to the same text as
/// the segments they came from.
pub proof fn lemma_chunks_of_join(segs: Seq<Seq<char>>, n: nat, d: char)
    requires
        n >= 1,
        segs.len() >= 1,
    ensures
        join_spec(chunks_of(segs, n, d), d) == join_spec(segs, d),
{
    lemma_grouped_join(segs, window_size(segs.len(), n), d);
    lemma_merge_join(grouped_chunks(segs, window_size(segs.len(), n), d), d);
}

/// Rejoining every chunk the segmenter returns with the delimiter it
/// reports reproduces the original text exactly: no character is ever
/// dropped, duplicated or invented, in the grouped and in the ungrouped
/// case alike.
pub proof fn lemma_segment_reconstructs(text: Seq<char>, n: nat)
    requires
        n >= 1,
    ensures
        join_spec(seg_chunks(text, n), seg_delimiter(text, n)) == text,
{
    let d = seg_delimiter(text, n);
    lemma_join_of_split(text, d);
    lemma_join_of_split(text, '\n');
    if seg_grouped(text, n) {
        lemma_split_len(text, d);
        lemma_chunks_of_join(split_spec(text, d), n, d);
    }
}

/// How many chunks grouping produces: the segment count divided by the
/// window size, rounded up.
pub proof fn lemma_grouped_len(segs: Seq<Seq<char>>, size: nat, d: char)
    requires
        size >= 1,
    ensures
        grouped_chunks(segs, size, d).len() == (segs.len() + size - 1) / (size as int),
    decreases segs.len(),
{
    let l = segs.len() as int;
    let s = size as int;
    if segs.len() == 0 {
        vstd::arithmetic::div_mod::lemma_basic_div(s - 1, s);
    } else if segs.len() <= size {
        vstd::arithmetic::div_mod::lemma_fundamental_div_mod_converse(l + s - 1, s, 1, l - 1);
    } else {
        lemma_grouped_len(segs.skip(s), size, d);
        assert(segs.skip(s).len() == l - s);
        let q = (l - s + s - 1) / s;
        vstd::arithmetic::div_mod::lemma_fundamental_div_mod(l - 1, s);
        assert(l - 1 == s * ((l - 1) / s) + ((l - 1) % s));
        assert(((l - 1) / s + 1) * s == ((l - 1) / s) * s + s) by (nonlinear_arith);
        assert(s * ((l - 1) / s) == ((l - 1) / s) * s) by (nonlinear_arith);
        vstd::arithmetic::div_mod::lemma_fundamental_div_mod_converse(
            l + s - 1,
            s,
            (l - 1) / s + 1,
            (l - 1) % s,
        );
    }
}

/// On a text whose line count reaches the requested count `n`, and whose
/// remainder of lines does not outnumber one full window, the segmenter
/// cuts at line breaks into exactly `n` chunks, and rejoining them with
/// the line break reproduces the text.
pub proof fn lemma_line_chunking(text: Seq<char>, n: nat)
    requires
        n >= 1,
        split_spec(text, '\n').len() >= n,
        split_spec(text, '\n').len() as int % (n as int) <= split_spec(text, '\n').len() as int / (
        n as int),
    ensures
        seg_delimiter(text, n) == '\n',
        1 <= seg_chunks(text, n).len() <= n,
        seg_chunks(text, n).len() == n,
        join_spec(seg_chunks(text, n), '\n') == text,
{
    let lines = split_spec(text, '\n');
    let l = lines.len() as int;
    let nn = n as int;
    vstd::arithmetic::div_mod::lemma_div_non_zero(l, nn);
    let size = l / nn;
    let r = l % nn;
    assert(window_size(lines.len(), n) == size);
    lemma_grouped_len(lines, size as nat, '\n');
    vstd::arithmetic::div_mod::lemma_fundamental_div_mod(l, nn);
    assert(l == nn * size + r);
    assert(nn * size == size * nn) by (nonlinear_arith);
    if r == 0 {
        assert(l + size - 1 == nn * size + (size - 1));
        vstd::arithmetic::div_mod::lemma_fundamental_div_mod_converse(
            l + size - 1,
            size,
            nn,
            size - 1,
        );
    } else {
        assert((nn + 1) * size == nn * size + size) by (nonlinear_arith);
        assert(l + size - 1 == (nn + 1) * size + (r - 1));
        vstd::arithmetic::div_mod::lemma_fundamental_div_mod_converse(
            l + size - 1,
            size,
            nn + 1,
            r - 1,
        );
        assert(grouped_chunks(lines, size as nat, '\n').len() == nn + 1);
    }
    lemma_segment_reconstructs(text, n);
}

/// When the line count falls short of the requested count, the fallback
/// order is `.` before `?`: a text that contains `.` is grouped on `.`,
/// whether or not it also contains `?`.
pub proof fn lemma_fallback_prefers_dot(text: Seq<char>, n: nat)
    requires
        split_spec(text, '\n').len() < n,
        text.contains('.'),
    ensures
        seg_grouped(text, n),
        seg_delimiter(text, n) == '.',
{
}

/// A text containing no line break, no `.` and no `?` comes back as a
/// single-element chunk list holding the text itself: no split occurred.
pub proof fn lemma_no_delimiter_single(text: Seq<char>, n: nat)
    requires
        n >= 1,
        !text.contains('\n'),
        !text.contains('.'),
        !text.contains('?'),
    ensures
        seg_chunks(text, n) == seq![text],
{
    lemma_split_absent(text, '\n');
    if n == 1 {
        assert(seg_uses_lines(text, n));
        assert(window_size(1nat, 1nat) == 1nat);
        assert(grouped_chunks(seq![text], 1nat, '\n') == seq![join_spec(seq![text], '\n')]);
        assert(join_spec(seq![text], '\n') == text);
        assert(1int % 1int == 0);
    } else {
        assert(!seg_grouped(text, n));
    }
}

/// When the segment count does not divide evenly by the requested count
/// and more than one window was produced, the returned list is the
/// window list with its last two entries joined into the final chunk:
/// one chunk fewer, and the final chunk holds both windows.
pub proof fn lemma_remainder_merge(text: Seq<char>, n: nat)
    requires
        n >= 1,
        seg_grouped(text, n),
        split_spec(text, seg_delimiter(text, n)).len() as int % (n as int) != 0,
        grouped_chunks(
            split_spec(text, seg_delimiter(text, n)),
            window_size(split_spec(text, seg_delimiter(text, n)).len(), n),
            seg_delimiter(text, n),
        ).len() >= 2,
    ensures
        ({
            let d = seg_delimiter(text, n);
            let g = grouped_chunks(
                split_spec(text, d),
                window_size(split_spec(text, d).len(), n),
                d,
            );
            seg_chunks(text, n) == merge_last_two(g, d) && seg_chunks(text, n).len() == g.len() - 1
                && seg_chunks(text, n).last() == g[g.len() - 2] + seq![d] + g[g.len() - 1]
        }),
{
}

/// Splitting each chunk of a concatenation splits the two parts
/// independently.
pub proof fn lemma_chunk_segments_concat(a: Seq<Seq<char>>, b: Seq<Seq<char>>, d: char)
    ensures
        chunk_segments(a + b, d) == chunk_segments(a, d) + chunk_segments(b, d),
    decreases b.len(),
{
    if b.len() == 0 {
        assert(a + b =~= a);
        assert(chunk_segments(a, d) + chunk_segments(b, d) =~= chunk_segments(a, d));
    } else {
        lemma_chunk_segments_concat(a, b.drop_last(), d);
        assert((a + b).drop_last() =~= a + b.drop_last());
        assert((a + b).last() == b.last());
        assert(chunk_segments(a, d) + (chunk_segments(b.drop_last(), d) + split_spec(
            b.last(),
            d,
        )) =~= (chunk_segments(a, d) + chunk_segments(b.drop_last(), d)) + split_spec(
            b.last(),
            d,
        ));
    }
}

/// Chunks that are themselves free of the delimiter split back into
/// exactly themselves.
pub proof fn lemma_chunk_segments_free(ps: Seq<Seq<char>>, d: char)
    requires
        forall|i: int| 0 <= i < ps.len() ==> !(#[trigger] ps[i]).contains(d),
    ensures
        chunk_segments(ps, d) == ps,
    decreases ps.len(),
{
    if ps.len() > 0 {
        assert(forall|i: int|
            0 <= i < ps.drop_last().len() ==> !(#[trigger] ps.drop_last()[i]).contains(d));
        lemma_chunk_segments_free(ps.drop_last(), d);
        assert(ps[ps.len() - 1] == ps.last());
        lemma_split_absent(ps.last(), d);
        assert(ps.drop_last() + seq![ps.last()] =~= ps);
    }
}

/// Splitting the grouped chunks back on the delimiter recovers the full
/// segment list: no segment is duplicated or dropped by grouping.
pub proof fn lemma_grouped_coverage(segs: Seq<Seq<char>>, size: nat, d: char)
    requires
        size >= 1,
        forall|i: int| 0 <= i < segs.len() ==> !(#[trigger] segs[i]).contains(d),
    ensures
        chunk_segments(grouped_chunks(segs, size, d), d) == segs,
    decreases segs.len(),
{
    if segs.len() == 0 {
        assert(chunk_segments(grouped_chunks(segs, size, d), d) =~= segs);
    } else if segs.len() <= size {
        let x = join_spec(segs, d);
        assert(chunk_segments(seq![x], d) == chunk_segments(Seq::<Seq<char>>::empty(), d)
            + split_spec(x, d)) by {
            assert(seq![x].drop_last() =~= Seq::<Seq<char>>::empty());
            assert(seq![x].last() == x);
        }
        lemma_split_of_join(segs, d);
        assert(Seq::<Seq<char>>::empty() + segs =~= segs);
    } else {
        let take = segs.take(size as int);
        let skip = segs.skip(size as int);
        assert(forall|i: int| 0 <= i < take.len() ==> !(#[trigger] take[i]).contains(d));
        assert(forall|i: int| 0 <= i < skip.len() ==> !(#[trigger] skip[i]).contains(d));
        lemma_grouped_coverage(skip, size, d);
        let x = join_spec(take, d);
        lemma_chunk_segments_concat(seq![x], grouped_chunks(skip, size, d), d);
        assert(chunk_segments(seq![x], d) == chunk_segments(Seq::<Seq<char>>::empty(), d)
            + split_spec(x, d)) by {
            assert(seq![x].drop_last() =~= Seq::<Seq<char>>::empty());
            assert(seq![x].last() == x);
        }
        lemma_split_of_join(take, d);
        assert(Seq::<Seq<char>>::empty() + take =~= take);
        assert(take + skip =~= segs);
    }
}

/// Merging the last two chunks neither duplicates nor drops a segment.
pub proof fn lemma_merge_coverage(cs: Seq<Seq<char>>, d: char)
    ensures
        chunk_segments(merge_last_two(cs, d), d) == chunk_segments(cs, d),
{
    if cs.len() >= 2 {
        let l = cs.len() as int;
        let x = cs[l - 2] + seq![d] + cs[l - 1];
        let merged = cs.take(l - 2).push(x);
        assert(merged.drop_last() =~= cs.take(l - 2));
        assert(merged.last() == x);
        assert(chunk_segments(merged, d) == chunk_segments(cs.take(l - 2), d) + split_spec(x, d));
        lemma_split_concat(cs[l - 2], cs[l - 1], d);
        assert(cs.drop_last() =~= cs.take(l - 1));
        assert(cs.take(l - 1).drop_last() =~= cs.take(l - 2));
        assert(cs.take(l - 1).last() == cs[l - 2]);
        assert(cs.last() == cs[l - 1]);
        assert(chunk_segments(cs, d) == chunk_segments(cs.take(l - 1), d) + split_spec(
            cs[l - 1],
            d,
        ));
        assert(chunk_segments(cs.take(l - 1), d) == chunk_segments(cs.take(l - 2), d) + split_spec(
            cs[l - 2],
            d,
        ));
        assert(chunk_segments(cs.take(l - 2), d) + (split_spec(cs[l - 2], d) + split_spec(
            cs[l - 1],
            d,
        )) =~= (chunk_segments(cs.take(l - 2), d) + split_spec(cs[l - 2], d)) + split_spec(
            cs[l - 1],
            d,
        ));
    }
}

/// Splitting the returned chunks back on the reported delimiter recovers
/// the full segment list of the text: across grouping and the remainder
/// merge, no segment is duplicated or dropped.
pub proof fn lemma_segment_coverage(text: Seq<char>, n: nat)
    requires
        n >= 1,
    ensures
        chunk_segments(seg_chunks(text, n), seg_delimiter(text, n)) == split_spec(
            text,
            seg_delimiter(text, n),
        ),
{
    let d = seg_delimiter(text, n);
    let segs = split_spec(text, d);
    lemma_split_free_of_delimiter(text, d);
    lemma_split_len(text, d);
    if seg_grouped(text, n) {
        let size = window_size(segs.len(), n);
        lemma_grouped_coverage(segs, size, d);
        lemma_merge_coverage(grouped_chunks(segs, size, d), d);
    } else {
        lemma_chunk_segments_free(split_spec(text, '\n'), '\n');
    }
}

/// The segmenter's result: either chunks grouped on the delimiter that
/// produced them, or — when no delimiter in the preference order could
/// group the text — the raw line split, unmodified.
#[derive(Debug)]
pub enum Segmentation {
    Grouped { delimiter: char, chunks: Vec<Vec<char>> },
    Ungrouped { lines: Vec<Vec<char>> },
}

/// Group `parts` into chunks for a requested count of `n`, windows of
/// `size` segments joined with `d`, merging the last two chunks when the
/// segment count does not divide evenly by `n`.
fn build_chunks(parts: &Vec<Vec<char>>, size: usize, n: usize, d: char) -> (r: Vec<Vec<char>>)
    requires
        1 <= size,
        1 <= n,
        size == window_size(parts@.len() as nat, n as nat),
    ensures
        r.deep_view() == chunks_of(parts.deep_view(), n as nat, d),
{
    let ghost dv = parts.deep_view();
    let mut chunks: Vec<Vec<char>> = Vec::new();
    let mut start: usize = 0;
    proof {
        assert(dv.skip(0) =~= dv);
        assert(chunks.deep_view() =~= Seq::<Seq<char>>::empty());
        assert(Seq::<Seq<char>>::empty() + grouped_chunks(dv, size as nat, d) =~= grouped_chunks(
            dv,
            size as nat,
            d,
        ));
    }
    while start < parts.len()
        invariant
            0 <= start <= dv.len(),
            dv == parts.deep_view(),
            1 <= size,
            grouped_chunks(dv, size as nat, d) == chunks.deep_view() + grouped_chunks(
                dv.skip(start as int),
                size as nat,
                d,
            ),
        decreases dv.len() - start,
    {
        let end = if size < parts.len() - start {
            start + size
        } else {
            parts.len()
        };
        let ghost c0 = chunks.deep_view();
        let chunk = join_range(parts, start, end, d);
        chunks.push(chunk);
        proof {
            let tail = dv.skip(start as int);
            assert(chunks.deep_view() =~~= c0.push(
                join_spec(dv.subrange(start as int, end as int), d),
            ));
            if dv.len() - start <= size {
                assert(tail =~= dv.subrange(start as int, end as int));
                assert(grouped_chunks(tail, size as nat, d) == seq![join_spec(tail, d)]);
                assert(dv.skip(end as int) =~= Seq::<Seq<char>>::empty());
                assert(chunks.deep_view() + grouped_chunks(dv.skip(end as int), size as nat, d)
                    =~= c0 + grouped_chunks(tail, size as nat, d));
            } else {
                assert(tail.take(size as int) =~= dv.subrange(start as int, end as int));
                assert(tail.skip(size as int) =~= dv.skip(end as int));
                assert(grouped_chunks(tail, size as nat, d) == seq![join_spec(
                    dv.subrange(start as int, end as int),
                    d,
                )] + grouped_chunks(dv.skip(end as int), size as nat, d));
                assert(chunks.deep_view() + grouped_chunks(dv.skip(end as int), size as nat, d)
                    =~= c0 + grouped_chunks(tail, size as nat, d));
            }
        }
        start = end;
    }
    proof {
        assert(dv.skip(start as int) =~= Seq::<Seq<char>>::empty());
        assert(grouped_chunks(Seq::<Seq<char>>::empty(), size as nat, d)
            == Seq::<Seq<char>>::empty());
        assert(chunks.deep_view() =~= chunks.deep_view() + Seq::<Seq<char>>::empty());
    }
    if parts.len() % n != 0 && chunks.len() >= 2 {
        let ghost g = chunks.deep_view();
        let last = match chunks.pop() {
            Some(c) => c,
            None => Vec::new(),
        };
        let second = match chunks.pop() {
            Some(c) => c,
            None => Vec::new(),
        };
        let mut merged = second;
        merged.push(d);
        append_chars(&mut merged, &last);
        chunks.push(merged);
        proof {
            assert(merged@ == g[g.len() - 2] + seq![d] + g[g.len() - 1]);
            assert(chunks.deep_view() =~~= merge_last_two(g, d));
        }
    } else {
        proof {
            if parts@.len() as int % (n as int) != 0 {
                assert(chunks.deep_view() == merge_last_two(chunks.deep_view(), d));
            }
        }
    }
    chunks
}

/// Split `text` into an ordered list of chunks for a requested count of
/// `n`, preferring line breaks, then `.`, then `?`.  A request for zero
/// chunks is treated as a request for one.
pub fn segment(text: &Vec<char>, n: usize) -> (r: Segmentation)
    ensures
        seg_grouped(text@, effective_count(n)) ==> (r matches Segmentation::Grouped {
            delimiter,
            chunks,
        } && delimiter == seg_delimiter(text@, effective_count(n)) && chunks.deep_view()
            == seg_chunks(text@, effective_count(n))),
        !seg_grouped(text@, effective_count(n)) ==> (r matches Segmentation::Ungrouped { lines }
            && lines.deep_view() == seg_chunks(text@, effective_count(n))),
{
    let ghost em = effective_count(n);
    let m: usize = if n == 0 {
        1
    } else {
        n
    };
    let lines = split_chars(text, '\n');
    proof {
        assert(lines.deep_view().len() == lines@.len());
        if lines@.len() >= m {
            vstd::arithmetic::div_mod::lemma_div_non_zero(lines@.len() as int, m as int);
        } else {
            vstd::arithmetic::div_mod::lemma_basic_div(lines@.len() as int, m as int);
        }
    }
    let size = lines.len() / m;
    if size >= 1 {
        let chunks = build_chunks(&lines, size, m, '\n');
        Segmentation::Grouped { delimiter: '\n', chunks }
    } else if contains_char(text, '.') {
        let segs = split_chars(text, '.');
        let s0 = segs.len() / m;
        let size = if s0 == 0 {
            1
        } else {
            s0
        };
        let chunks = build_chunks(&segs, size, m, '.');
        Segmentation::Grouped { delimiter: '.', chunks }
    } else if contains_char(text, '?') {
        let segs = split_chars(text, '?');
        let s0 = segs.len() / m;
        let size = if s0 == 0 {
            1
        } else {
            s0
        };
        let chunks = build_chunks(&segs, size, m, '?');
        Segmentation::Grouped { delimiter: '?', chunks }
    } else {
        Segmentation::Ungrouped { lines }
    }
}

/// Split `text` into chunks as `segment` does, handing back the bare
/// chunk list, ungrouped fallback included.
pub fn split_at_positions(text: &Vec<char>, num_chunks: usize) -> (r: Vec<Vec<char>>)
    ensures
        r.deep_view() == seg_chunks(text@, effective_count(num_chunks)),
{
    match segment(text, num_chunks) {
        Segmentation::Grouped { delimiter: _, chunks } => chunks,
        Segmentation::Ungrouped { lines } => lines,
    }
}

} // verus!
