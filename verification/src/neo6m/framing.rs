//! Cutting the bytes read from the receiver into NMEA sentences.

use vstd::prelude::*;

verus! {

/// The byte that ends a sentence.
pub const NEWLINE: u8 = 0x0a;

/// The pieces of `s` between the bytes equal to `sep`, as `split` on that
/// byte gives them: empty pieces included, one piece more than there are
/// separators.
pub open spec fn split_on(s: Seq<u8>, sep: u8) -> Seq<Seq<u8>>
    decreases s.len(),
{
    if s.len() == 0 {
        seq![Seq::empty()]
    } else {
        let rest = split_on(s.drop_last(), sep);
        if s.last() == sep {
            rest.push(Seq::empty())
        } else {
            rest.update(rest.len() - 1, rest.last().push(s.last()))
        }
    }
}

/// The pieces of `s` between newlines.
pub open spec fn split_lines(s: Seq<u8>) -> Seq<Seq<u8>> {
    split_on(s, NEWLINE)
}

/// The non-empty pieces of `pieces`, in order.
pub open spec fn non_empty(pieces: Seq<Seq<u8>>) -> Seq<Seq<u8>>
    decreases pieces.len(),
{
    if pieces.len() == 0 {
        Seq::empty()
    } else if pieces.last().len() == 0 {
        non_empty(pieces.drop_last())
    } else {
        non_empty(pieces.drop_last()).push(pieces.last())
    }
}

/// The sentences in `data`: its non-empty newline-separated pieces.
pub open spec fn gps_sentences(data: Seq<u8>) -> Seq<Seq<u8>> {
    non_empty(split_lines(data))
}

/// The views of a sequence of byte vectors.
pub open spec fn byte_views(v: Seq<Vec<u8>>) -> Seq<Seq<u8>> {
    v.map_values(|x: Vec<u8>| x@)
}

/// There is always at least one piece, and at most one more than bytes.
pub proof fn lemma_split_on_len(s: Seq<u8>, sep: u8)
    ensures
        split_on(s, sep).len() >= 1,
        split_on(s, sep).len() <= s.len() + 1,
    decreases s.len(),
{
    if s.len() > 0 {
        lemma_split_on_len(s.drop_last(), sep);
    }
}

/// There is always at least one line.
pub proof fn lemma_split_lines_len(s: Seq<u8>)
    ensures
        split_lines(s).len() >= 1,
        split_lines(s).len() <= s.len() + 1,
{
    lemma_split_on_len(s, NEWLINE);
}

/// No piece holds a newline.
pub proof fn lemma_split_lines_no_newline(s: Seq<u8>)
    ensures
        forall|i: int|
            0 <= i < split_lines(s).len() ==> !(#[trigger] split_lines(s)[i]).contains(NEWLINE),
    decreases s.len(),
{
    if s.len() > 0 {
        let t = s.drop_last();
        lemma_split_lines_no_newline(t);
        lemma_split_lines_len(t);
        let rest = split_lines(t);
        if s.last() != NEWLINE {
            let last = rest.last().push(s.last());
            assert forall|k: int| 0 <= k < last.len() implies last[k] != NEWLINE by {
                if k < rest.last().len() {
                    assert(last[k] == rest.last()[k]);
                    assert(!rest[rest.len() - 1].contains(NEWLINE));
                }
            }
            assert(!last.contains(NEWLINE));
        } else {
            assert(!Seq::<u8>::empty().contains(NEWLINE));
        }
        assert forall|i: int| 0 <= i < split_lines(s).len() implies !(
        #[trigger] split_lines(s)[i]).contains(NEWLINE) by {
            if i < rest.len() - 1 {
                assert(split_lines(s)[i] == rest[i]);
            }
        }
    }
}

/// `non_empty` keeps exactly the non-empty pieces, each one of `pieces`.
pub proof fn lemma_non_empty_members(pieces: Seq<Seq<u8>>)
    ensures
        non_empty(pieces).len() <= pieces.len(),
        forall|i: int|
            0 <= i < non_empty(pieces).len() ==> (#[trigger] non_empty(pieces)[i]).len() > 0
                && pieces.contains(non_empty(pieces)[i]),
    decreases pieces.len(),
{
    if pieces.len() > 0 {
        let t = pieces.drop_last();
        lemma_non_empty_members(t);
        assert forall|i: int| 0 <= i < non_empty(pieces).len() implies (
        #[trigger] non_empty(pieces)[i]).len() > 0 && pieces.contains(non_empty(pieces)[i]) by {
            if i < non_empty(t).len() {
                assert(non_empty(pieces)[i] == non_empty(t)[i]);
                let j = choose|j: int| 0 <= j < t.len() && t[j] == non_empty(t)[i];
                assert(pieces[j] == t[j]);
            } else {
                assert(pieces[pieces.len() - 1] == pieces.last());
            }
        }
    }
}

/// Every sentence is non-empty and holds no newline.
pub proof fn lemma_sentences_are_lines(data: Seq<u8>)
    ensures
        forall|i: int|
            0 <= i < gps_sentences(data).len() ==> (#[trigger] gps_sentences(data)[i]).len() > 0
                && !gps_sentences(data)[i].contains(NEWLINE),
{
    lemma_split_lines_no_newline(data);
    lemma_non_empty_members(split_lines(data));
    assert forall|i: int| 0 <= i < gps_sentences(data).len() implies (
    #[trigger] gps_sentences(data)[i]).len() > 0 && !gps_sentences(data)[i].contains(NEWLINE) by {
        let j = choose|j: int|
            0 <= j < split_lines(data).len() && split_lines(data)[j] == gps_sentences(data)[i];
        assert(!split_lines(data)[j].contains(NEWLINE));
    }
}

/// Splitting at a newline: the pieces of `a`, newline, `b` are those of `a`
/// followed by those of `b`.
pub proof fn lemma_split_lines_concat(a: Seq<u8>, b: Seq<u8>)
    ensures
        split_lines(a + seq![NEWLINE] + b) == split_lines(a) + split_lines(b),
{
    lemma_split_on_concat(a, b, NEWLINE);
}

/// Splitting at a separator: the pieces of `a`, separator, `b` are those of
/// `a` followed by those of `b`.
pub proof fn lemma_split_on_concat(a: Seq<u8>, b: Seq<u8>, sep: u8)
    ensures
        split_on(a + seq![sep] + b, sep) == split_on(a, sep) + split_on(b, sep),
    decreases b.len(),
{
    let ab = a + seq![sep] + b;
    if b.len() == 0 {
        assert(ab.drop_last() =~= a);
        assert(split_on(ab, sep) =~= split_on(a, sep) + split_on(b, sep));
    } else {
        let b1 = b.drop_last();
        lemma_split_on_concat(a, b1, sep);
        lemma_split_on_len(b1, sep);
        assert(ab.drop_last() =~= a + seq![sep] + b1);
        assert(ab.last() == b.last());
        assert(split_on(ab, sep) =~= split_on(a, sep) + split_on(b, sep));
    }
}

/// Data without the separator is one piece, itself.
pub proof fn lemma_split_on_without_sep(x: Seq<u8>, sep: u8)
    requires
        !x.contains(sep),
    ensures
        split_on(x, sep) == seq![x],
    decreases x.len(),
{
    if x.len() > 0 {
        let t = x.drop_last();
        assert(!t.contains(sep)) by {
            if t.contains(sep) {
                let j = choose|j: int| 0 <= j < t.len() && t[j] == sep;
                assert(x[j] == sep);
            }
        }
        lemma_split_on_without_sep(t, sep);
        assert(x.last() != sep) by {
            assert(x[x.len() - 1] == x.last());
        }
        assert(t.push(x.last()) =~= x);
        assert(split_on(x, sep) =~= seq![t].update(0, t.push(x.last())));
    } else {
        assert(x =~= Seq::<u8>::empty());
    }
}

/// Keeping the non-empty pieces commutes with concatenation.
pub proof fn lemma_non_empty_concat(x: Seq<Seq<u8>>, y: Seq<Seq<u8>>)
    ensures
        non_empty(x + y) == non_empty(x) + non_empty(y),
    decreases y.len(),
{
    if y.len() == 0 {
        assert(x + y =~= x);
        assert(non_empty(x) + non_empty(y) =~= non_empty(x));
    } else {
        let y1 = y.drop_last();
        lemma_non_empty_concat(x, y1);
        assert((x + y).drop_last() =~= x + y1);
        assert((x + y).last() == y.last());
        assert(non_empty(x + y) =~= non_empty(x) + non_empty(y));
    }
}

/// Data that arrives in two parts split at a newline gives the sentences of
/// the first part followed by those of the second.
pub proof fn lemma_sentences_concat(a: Seq<u8>, b: Seq<u8>)
    ensures
        gps_sentences(a + seq![NEWLINE] + b) == gps_sentences(a) + gps_sentences(b),
{
    lemma_split_lines_concat(a, b);
    lemma_non_empty_concat(split_lines(a), split_lines(b));
}

/// A blank line changes nothing: doubling a newline leaves the sentences as
/// they were.
pub proof fn lemma_blank_line_ignored(a: Seq<u8>, b: Seq<u8>)
    ensures
        gps_sentences(a + seq![NEWLINE] + (seq![NEWLINE] + b)) == gps_sentences(a + seq![NEWLINE] + b),
{
    lemma_sentences_concat(a, seq![NEWLINE] + b);
    lemma_sentences_concat(Seq::empty(), b);
    assert(Seq::<u8>::empty() + seq![NEWLINE] + b =~= seq![NEWLINE] + b);
    let one_empty: Seq<Seq<u8>> = seq![Seq::empty()];
    assert(split_lines(Seq::<u8>::empty()) == one_empty);
    assert(one_empty.drop_last() =~= Seq::<Seq<u8>>::empty());
    assert(non_empty(Seq::<Seq<u8>>::empty()) == Seq::<Seq<u8>>::empty());
    assert(gps_sentences(Seq::<u8>::empty()) =~= Seq::<Seq<u8>>::empty());
    lemma_sentences_concat(a, b);
    assert(gps_sentences(a) + (Seq::<Seq<u8>>::empty() + gps_sentences(b)) =~= gps_sentences(a)
        + gps_sentences(b));
}

/// Data made of newlines only holds no sentence.
pub proof fn lemma_newlines_only_no_sentence(data: Seq<u8>)
    requires
        forall|i: int| 0 <= i < data.len() ==> data[i] == NEWLINE,
    ensures
        gps_sentences(data) == Seq::<Seq<u8>>::empty(),
    decreases data.len(),
{
    if data.len() == 0 {
        let one_empty: Seq<Seq<u8>> = seq![Seq::empty()];
        assert(split_lines(data) == one_empty);
        assert(one_empty.drop_last() =~= Seq::<Seq<u8>>::empty());
        assert(non_empty(Seq::<Seq<u8>>::empty()) == Seq::<Seq<u8>>::empty());
    } else {
        let t = data.drop_last();
        lemma_newlines_only_no_sentence(t);
        assert(data.last() == NEWLINE);
        let pieces = split_lines(data);
        assert(pieces == split_lines(t).push(Seq::empty()));
        assert(pieces.drop_last() =~= split_lines(t));
    }
}

/// Non-empty data without a newline is one sentence, itself.
pub proof fn lemma_single_line_is_one_sentence(line: Seq<u8>)
    requires
        line.len() > 0,
        !line.contains(NEWLINE),
    ensures
        gps_sentences(line) == seq![line],
{
    lemma_split_on_without_sep(line, NEWLINE);
    let one: Seq<Seq<u8>> = seq![line];
    assert(one.drop_last() =~= Seq::<Seq<u8>>::empty());
    assert(non_empty(Seq::<Seq<u8>>::empty()) == Seq::<Seq<u8>>::empty());
    assert(non_empty(one) =~= one);
}

/// Splits `data` at every byte equal to `sep`, keeping all pieces, empty
/// ones included.
pub fn split_fields(data: &[u8], sep: u8) -> (pieces: Vec<Vec<u8>>)
    ensures
        byte_views(pieces@) == split_on(data@, sep),
{
    let mut out: Vec<Vec<u8>> = Vec::new();
    let mut cur: Vec<u8> = Vec::new();
    let n = data.len();
    assert(data@.take(0) =~= Seq::<u8>::empty());
    assert(split_on(data@.take(0), sep) =~= byte_views(out@).push(cur@));
    for i in 0..n
        invariant
            n == data@.len(),
            split_on(data@.take(i as int), sep) == byte_views(out@).push(cur@),
    {
        let b = data[i];
        assert(data@.take(i + 1).drop_last() =~= data@.take(i as int));
        assert(data@.take(i + 1).last() == b);
        let ghost before = byte_views(out@);
        if b == sep {
            out.push(cur);
            cur = Vec::new();
            assert(byte_views(out@) =~= before.push(split_on(data@.take(i as int), sep).last()));
            assert(split_on(data@.take(i + 1), sep) =~= byte_views(out@).push(cur@));
        } else {
            cur.push(b);
            assert(split_on(data@.take(i + 1), sep) =~= byte_views(out@).push(cur@));
        }
    }
    assert(data@.take(n as int) =~= data@);
    let ghost before = byte_views(out@);
    out.push(cur);
    assert(byte_views(out@) =~= before.push(cur@));
    out
}

/// Splits `data` at every newline and keeps the non-empty pieces, in order.
pub fn split_sentences(data: &[u8]) -> (sentences: Vec<Vec<u8>>)
    ensures
        byte_views(sentences@) == gps_sentences(data@),
{
    let mut out: Vec<Vec<u8>> = Vec::new();
    let mut cur: Vec<u8> = Vec::new();
    let n = data.len();
    for i in 0..n
        invariant
            n == data@.len(),
            split_lines(data@.take(i as int)).len() >= 1,
            split_lines(data@.take(i as int)).last() == cur@,
            byte_views(out@) == non_empty(split_lines(data@.take(i as int)).drop_last()),
    {
        let ghost prev = split_lines(data@.take(i as int));
        let b = data[i];
        assert(data@.take(i + 1).drop_last() =~= data@.take(i as int));
        assert(data@.take(i + 1).last() == b);
        if b == NEWLINE {
            let ghost old_out = byte_views(out@);
            if cur.len() > 0 {
                out.push(cur);
                assert(byte_views(out@) =~= old_out.push(prev.last()));
            }
            cur = Vec::new();
            assert(split_lines(data@.take(i + 1)) == prev.push(Seq::empty()));
            assert(split_lines(data@.take(i + 1)).drop_last() =~= prev);
            assert(prev =~= prev.drop_last().push(prev.last()));
        } else {
            cur.push(b);
            assert(split_lines(data@.take(i + 1)).drop_last() =~= prev.drop_last());
        }
    }
    let ghost all = split_lines(data@.take(n as int));
    assert(data@.take(n as int) =~= data@);
    assert(all =~= all.drop_last().push(all.last()));
    if cur.len() > 0 {
        let ghost old_out = byte_views(out@);
        out.push(cur);
        assert(byte_views(out@) =~= old_out.push(all.last()));
    }
    out
}

} // verus!
