//! Splitting a character sequence on a delimiter, and joining the pieces
//! back together.  These are the primitives the segmenter is built on.

use vstd::prelude::*;

verus! {

/// The pieces of `s` between occurrences of the delimiter `d`, in order.
/// There is always at least one piece; no piece contains `d`.
pub open spec fn split_spec(s: Seq<char>, d: char) -> Seq<Seq<char>>
    decreases s.len(),
{
    if s.len() == 0 {
        seq![Seq::<char>::empty()]
    } else if s.last() == d {
        split_spec(s.drop_last(), d).push(Seq::<char>::empty())
    } else {
        let rest = split_spec(s.drop_last(), d);
        rest.update(rest.len() - 1, rest.last().push(s.last()))
    }
}

/// The pieces of `ps` laid end to end with one `d` between neighbours.
pub open spec fn join_spec(ps: Seq<Seq<char>>, d: char) -> Seq<char>
    decreases ps.len(),
{
    if ps.len() == 0 {
        Seq::<char>::empty()
    } else if ps.len() == 1 {
        ps[0]
    } else {
        join_spec(ps.drop_last(), d) + seq![d] + ps.last()
    }
}

/// Splitting always yields at least one piece.
pub proof fn lemma_split_len(s: Seq<char>, d: char)
    ensures
        split_spec(s, d).len() >= 1,
    decreases s.len(),
{
    if s.len() > 0 {
        lemma_split_len(s.drop_last(), d);
    }
}

/// No piece of a split contains the delimiter.
pub proof fn lemma_split_free_of_delimiter(s: Seq<char>, d: char)
    ensures
        forall|i: int|
            0 <= i < split_spec(s, d).len() ==> !(#[trigger] split_spec(s, d)[i]).contains(d),
    decreases s.len(),
{
    if s.len() == 0 {
        assert(!split_spec(s, d)[0].contains(d));
    } else {
        lemma_split_free_of_delimiter(s.drop_last(), d);
        lemma_split_len(s.drop_last(), d);
        if s.last() == d {
        } else {
            let rest = split_spec(s.drop_last(), d);
            let ext = rest.last().push(s.last());
            assert forall|j: int| 0 <= j < ext.len() implies ext[j] != d by {
                if j < ext.len() - 1 {
                    assert(ext[j] == rest.last()[j]);
                }
            }
            assert(!ext.contains(d));
        }
    }
}

/// Joining the pieces of a split with the same delimiter reproduces the
/// original sequence exactly: no character is lost or invented.
pub proof fn lemma_join_of_split(s: Seq<char>, d: char)
    ensures
        join_spec(split_spec(s, d), d) == s,
    decreases s.len(),
{
    if s.len() == 0 {
    } else if s.last() == d {
        lemma_join_of_split(s.drop_last(), d);
        lemma_split_len(s.drop_last(), d);
        let parts = split_spec(s.drop_last(), d).push(Seq::<char>::empty());
        assert(parts.drop_last() =~= split_spec(s.drop_last(), d));
        assert(join_spec(parts, d) =~= s);
    } else {
        lemma_join_of_split(s.drop_last(), d);
        lemma_split_len(s.drop_last(), d);
        let rest = split_spec(s.drop_last(), d);
        let parts = rest.update(rest.len() - 1, rest.last().push(s.last()));
        assert(s.drop_last().push(s.last()) =~= s);
        if rest.len() == 1 {
            assert(parts[0] == rest[0].push(s.last()));
            assert(join_spec(parts, d) == parts[0]);
            assert(rest[0] == s.drop_last());
            assert(join_spec(parts, d) == s);
        } else {
            let x = join_spec(rest.drop_last(), d);
            assert(parts.drop_last() =~= rest.drop_last());
            assert(join_spec(parts, d) == x + seq![d] + rest.last().push(s.last()));
            assert(s.drop_last() == x + seq![d] + rest.last());
            assert((x + seq![d] + rest.last()).push(s.last()) =~= x + seq![d] + rest.last().push(
                s.last(),
            ));
            assert(join_spec(parts, d) == s);
        }
    }
}

/// A sequence without the delimiter splits into itself alone.
pub proof fn lemma_split_absent(s: Seq<char>, d: char)
    requires
        !s.contains(d),
    ensures
        split_spec(s, d) == seq![s],
    decreases s.len(),
{
    if s.len() == 0 {
        assert(s =~= Seq::<char>::empty());
        assert(split_spec(s, d) == seq![Seq::<char>::empty()]);
        assert(split_spec(s, d) == seq![s]);
    } else {
        assert(s.contains(d) == (exists|i: int| 0 <= i < s.len() && s[i] == d));
        assert(s.last() != d) by {
            assert(s[s.len() - 1] == s.last());
        }
        assert(!s.drop_last().contains(d)) by {
            if s.drop_last().contains(d) {
                let i = choose|i: int| 0 <= i < s.drop_last().len() && s.drop_last()[i] == d;
                assert(s[i] == d);
            }
        }
        lemma_split_absent(s.drop_last(), d);
        let rest = split_spec(s.drop_last(), d);
        let upd = rest.update(rest.len() - 1, rest.last().push(s.last()));
        assert(split_spec(s, d) == upd);
        assert(rest == seq![s.drop_last()]);
        assert(upd.len() == 1);
        assert(upd[0] == s.drop_last().push(s.last()));
        assert(upd[0] =~= s);
        assert(upd =~= seq![s]);
    }
}

/// Appending one more piece to a join adds one delimiter and that piece.
pub proof fn lemma_join_push(ps: Seq<Seq<char>>, p: Seq<char>, d: char)
    requires
        ps.len() >= 1,
    ensures
        join_spec(ps.push(p), d) == join_spec(ps, d) + seq![d] + p,
{
    assert(ps.push(p).drop_last() =~= ps);
    assert(ps.push(p).last() == p);
}

/// Joining two piece lists one after the other equals joining their
/// concatenation, with one delimiter at the seam.
pub proof fn lemma_join_concat(a: Seq<Seq<char>>, b: Seq<Seq<char>>, d: char)
    requires
        a.len() >= 1,
        b.len() >= 1,
    ensures
        join_spec(a + b, d) == join_spec(a, d) + seq![d] + join_spec(b, d),
    decreases b.len(),
{
    if b.len() == 1 {
        assert(a + b =~= a.push(b[0]));
        lemma_join_push(a, b[0], d);
    } else {
        lemma_join_concat(a, b.drop_last(), d);
        assert((a + b).drop_last() =~= a + b.drop_last());
        assert((a + b).last() == b.last());
        assert(join_spec(a + b, d) == join_spec(a + b.drop_last(), d) + seq![d] + b.last());
        assert(join_spec(b, d) == join_spec(b.drop_last(), d) + seq![d] + b.last());
        assert(join_spec(a, d) + seq![d] + (join_spec(b.drop_last(), d) + seq![d] + b.last()) =~= (
        join_spec(a, d) + seq![d] + join_spec(b.drop_last(), d)) + seq![d] + b.last());
    }
}

/// Splitting a sequence at a known delimiter occurrence splits the two
/// halves independently.
pub proof fn lemma_split_concat(x: Seq<char>, y: Seq<char>, d: char)
    ensures
        split_spec(x + seq![d] + y, d) == split_spec(x, d) + split_spec(y, d),
    decreases y.len(),
{
    let s = x + seq![d] + y;
    if y.len() == 0 {
        assert(s.last() == d);
        assert(s.drop_last() =~= x);
        assert(split_spec(s, d) == split_spec(x, d).push(Seq::<char>::empty()));
        assert(split_spec(y, d) == seq![Seq::<char>::empty()]);
        assert(split_spec(x, d).push(Seq::<char>::empty()) =~= split_spec(x, d) + split_spec(
            y,
            d,
        ));
    } else if y.last() == d {
        lemma_split_concat(x, y.drop_last(), d);
        assert(s.last() == d);
        assert(s.drop_last() =~= x + seq![d] + y.drop_last());
        assert(split_spec(s, d) == (split_spec(x, d) + split_spec(y.drop_last(), d)).push(
            Seq::<char>::empty(),
        ));
        assert(split_spec(y, d) == split_spec(y.drop_last(), d).push(Seq::<char>::empty()));
        assert((split_spec(x, d) + split_spec(y.drop_last(), d)).push(Seq::<char>::empty()) =~=
        split_spec(x, d) + split_spec(y, d));
    } else {
        lemma_split_concat(x, y.drop_last(), d);
        lemma_split_len(y.drop_last(), d);
        lemma_split_len(x, d);
        assert(s.last() == y.last());
        assert(s.drop_last() =~= x + seq![d] + y.drop_last());
        let rx = split_spec(x, d);
        let ry = split_spec(y.drop_last(), d);
        let rest = rx + ry;
        assert(split_spec(s.drop_last(), d) == rest);
        assert(split_spec(s, d) == rest.update(rest.len() - 1, rest.last().push(y.last())));
        assert(rest.last() == ry.last());
        assert(split_spec(y, d) == ry.update(ry.len() - 1, ry.last().push(y.last())));
        assert(rest.update(rest.len() - 1, ry.last().push(y.last())) =~= rx + ry.update(
            ry.len() - 1,
            ry.last().push(y.last()),
        ));
    }
}

/// Splitting a join of delimiter-free pieces gives the pieces back.
pub proof fn lemma_split_of_join(ps: Seq<Seq<char>>, d: char)
    requires
        ps.len() >= 1,
        forall|i: int| 0 <= i < ps.len() ==> !(#[trigger] ps[i]).contains(d),
    ensures
        split_spec(join_spec(ps, d), d) == ps,
    decreases ps.len(),
{
    if ps.len() == 1 {
        lemma_split_absent(ps[0], d);
        assert(seq![ps[0]] =~= ps);
    } else {
        lemma_split_of_join(ps.drop_last(), d);
        assert(join_spec(ps, d) == join_spec(ps.drop_last(), d) + seq![d] + ps.last());
        lemma_split_concat(join_spec(ps.drop_last(), d), ps.last(), d);
        assert(ps[ps.len() - 1] == ps.last());
        lemma_split_absent(ps.last(), d);
        assert(ps.drop_last() + seq![ps.last()] =~= ps);
    }
}

/// Whether `d` occurs among the characters of `text`.
pub fn contains_char(text: &Vec<char>, d: char) -> (r: bool)
    ensures
        r == text@.contains(d),
{
    let mut i: usize = 0;
    while i < text.len()
        invariant
            0 <= i <= text@.len(),
            forall|j: int| 0 <= j < i ==> text@[j] != d,
        decreases text@.len() - i,
    {
        if text[i] == d {
            assert(text@.contains(d));
            return true;
        }
        i = i + 1;
    }
    assert(!text@.contains(d));
    false
}

/// Split `text` into its delimiter-separated pieces, in order.
pub fn split_chars(text: &Vec<char>, d: char) -> (r: Vec<Vec<char>>)
    ensures
        r.deep_view() == split_spec(text@, d),
        r@.len() >= 1,
{
    let mut done: Vec<Vec<char>> = Vec::new();
    let mut cur: Vec<char> = Vec::new();
    let mut i: usize = 0;
    while i < text.len()
        invariant
            0 <= i <= text@.len(),
            done.deep_view().push(cur@) == split_spec(text@.take(i as int), d),
        decreases text@.len() - i,
    {
        let ghost dv0 = done.deep_view();
        let ghost cur0 = cur@;
        proof {
            assert(text@.take(i + 1) =~= text@.take(i as int).push(text@[i as int]));
            assert(text@.take(i + 1).drop_last() =~= text@.take(i as int));
            assert(text@.take(i + 1).last() == text@[i as int]);
        }
        if text[i] == d {
            done.push(cur);
            cur = Vec::new();
            proof {
                assert(done.deep_view() =~~= dv0.push(cur0));
                assert(done.deep_view().push(cur@) =~= split_spec(text@.take(i as int), d).push(
                    Seq::<char>::empty(),
                ));
            }
        } else {
            cur.push(text[i]);
            proof {
                let prev = split_spec(text@.take(i as int), d);
                assert(prev.last() == cur0);
                assert(done.deep_view().push(cur@) =~= prev.update(
                    prev.len() - 1,
                    prev.last().push(text@[i as int]),
                ));
            }
        }
        i = i + 1;
    }
    let ghost dv0 = done.deep_view();
    done.push(cur);
    proof {
        assert(text@.take(text@.len() as int) =~= text@);
        assert(done.deep_view() =~~= dv0.push(cur@));
    }
    done
}

/// Append the characters of `src` to `dst`.
pub fn append_chars(dst: &mut Vec<char>, src: &Vec<char>)
    ensures
        final(dst)@ == old(dst)@ + src@,
{
    let mut k: usize = 0;
    while k < src.len()
        invariant
            0 <= k <= src@.len(),
            dst@ == old(dst)@ + src@.take(k as int),
        decreases src@.len() - k,
    {
        dst.push(src[k]);
        proof {
            assert(src@.take(k + 1) =~= src@.take(k as int).push(src@[k as int]));
            assert(old(dst)@ + src@.take(k + 1) =~= (old(dst)@ + src@.take(k as int)).push(
                src@[k as int],
            ));
        }
        k = k + 1;
    }
    proof {
        assert(src@.take(src@.len() as int) =~= src@);
    }
}

/// Join the pieces `parts[start..end]` with the delimiter `d`.
pub fn join_range(parts: &Vec<Vec<char>>, start: usize, end: usize, d: char) -> (r: Vec<char>)
    requires
        start < end,
        end <= parts@.len(),
    ensures
        r@ == join_spec(parts.deep_view().subrange(start as int, end as int), d),
{
    let ghost dv = parts.deep_view();
    let mut r: Vec<char> = Vec::new();
    append_chars(&mut r, &parts[start]);
    proof {
        assert(dv.subrange(start as int, start + 1) =~= seq![dv[start as int]]);
        assert(r@ =~~= dv[start as int]);
    }
    let mut j: usize = start + 1;
    while j < end
        invariant
            start < j <= end,
            end <= dv.len(),
            dv == parts.deep_view(),
            r@ == join_spec(dv.subrange(start as int, j as int), d),
        decreases end - j,
    {
        let ghost r0 = r@;
        r.push(d);
        append_chars(&mut r, &parts[j]);
        proof {
            let prev = dv.subrange(start as int, j as int);
            assert(dv.subrange(start as int, j + 1) =~= prev.push(dv[j as int]));
            lemma_join_push(prev, dv[j as int], d);
            assert(r@ =~= r0 + seq![d] + dv[j as int]);
        }
        j = j + 1;
    }
    r
}

} // verus!
