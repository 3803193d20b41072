//! Splitting a line of text into pieces: around a separator byte, empty
//! pieces kept (as `str::split` does), or into words between spaces, empty
//! pieces dropped (as `split(' ').filter(|w| !w.is_empty())` does).

use vstd::prelude::*;

verus! {

/// The contents of a vector of byte strings.
pub open spec fn texts(v: Seq<Vec<u8>>) -> Seq<Seq<u8>> {
    v.map_values(|t: Vec<u8>| t@)
}

/// Scanning `s` from the left: the pieces closed by a separator so far, and
/// the piece still open.
pub open spec fn fields_scan(s: Seq<u8>, sep: u8) -> (Seq<Seq<u8>>, Seq<u8>)
    decreases s.len(),
{
    if s.len() == 0 {
        (Seq::empty(), Seq::empty())
    } else {
        let (done, cur) = fields_scan(s.drop_last(), sep);
        if s.last() == sep {
            (done.push(cur), Seq::empty())
        } else {
            (done, cur.push(s.last()))
        }
    }
}

/// The pieces of `s` between occurrences of `sep`, empty ones included; there
/// is always one more piece than there are separators.
pub open spec fn fields(s: Seq<u8>, sep: u8) -> Seq<Seq<u8>> {
    fields_scan(s, sep).0.push(fields_scan(s, sep).1)
}

/// A piece is kept among the words when it is not empty.
pub open spec fn nonempty() -> spec_fn(Seq<u8>) -> bool {
    |w: Seq<u8>| w.len() > 0
}

/// The words of `s`: its pieces between spaces, empty pieces left out.
pub open spec fn words(s: Seq<u8>) -> Seq<Seq<u8>> {
    fields(s, 32).filter(nonempty())
}

/// Pieces put back together with the separator between them.
pub open spec fn joined(pieces: Seq<Seq<u8>>, sep: u8) -> Seq<u8>
    decreases pieces.len(),
{
    if pieces.len() == 0 {
        Seq::empty()
    } else if pieces.len() == 1 {
        pieces[0]
    } else {
        joined(pieces.drop_last(), sep) + seq![sep] + pieces.last()
    }
}

/// The state of a scan holds `s`: closed pieces and open piece joined give
/// it back, and no piece holds a separator.
proof fn lemma_scan_sound(s: Seq<u8>, sep: u8)
    ensures
        joined(fields_scan(s, sep).0.push(fields_scan(s, sep).1), sep) == s,
        forall|i: int, j: int|
            0 <= i < fields_scan(s, sep).0.len() && 0 <= j < fields_scan(s, sep).0[i].len()
                ==> #[trigger] fields_scan(s, sep).0[i][j] != sep,
        forall|j: int| 0 <= j < fields_scan(s, sep).1.len() ==> #[trigger] fields_scan(s, sep).1[j] != sep,
    decreases s.len(),
{
    if s.len() > 0 {
        let t = s.drop_last();
        lemma_scan_sound(t, sep);
        let (done, cur) = fields_scan(t, sep);
        let x = s.last();
        assert(t.push(x) =~= s);
        if x == sep {
            let d2 = done.push(cur);
            assert(d2.push(Seq::<u8>::empty()).drop_last() =~= d2);
            assert(joined(d2.push(Seq::<u8>::empty()), sep) =~= joined(d2, sep) + seq![sep]);
        } else {
            let p2 = done.push(cur.push(x));
            assert(p2.drop_last() =~= done);
            assert(done.push(cur).drop_last() =~= done);
            if done.len() == 0 {
                assert(joined(p2, sep) =~= cur.push(x));
                assert(joined(done.push(cur), sep) =~= cur);
            } else {
                assert(joined(p2, sep) =~= joined(done, sep) + seq![sep] + cur.push(x));
                assert(joined(done.push(cur), sep) =~= joined(done, sep) + seq![sep] + cur);
            }
        }
    }
}

/// Splitting around a separator loses nothing and keeps the order: joining
/// the pieces with the separator gives back the text, no piece holds the
/// separator, and there is one more piece than there are separators.
pub proof fn law_fields_rejoin(s: Seq<u8>, sep: u8)
    ensures
        joined(fields(s, sep), sep) == s,
        forall|i: int, j: int|
            0 <= i < fields(s, sep).len() && 0 <= j < fields(s, sep)[i].len() ==> #[trigger] fields(s, sep)[i][j]
                != sep,
        fields(s, sep).len() >= 1,
{
    lemma_scan_sound(s, sep);
    let (done, cur) = fields_scan(s, sep);
    assert forall|i: int, j: int|
        0 <= i < fields(s, sep).len() && 0 <= j < fields(s, sep)[i].len() implies #[trigger] fields(s, sep)[i][j]
            != sep by {
        if i < done.len() {
            assert(fields(s, sep)[i] == done[i]);
            assert(done[i][j] != sep);
        } else {
            assert(fields(s, sep)[i] == cur);
            assert(cur[j] != sep);
        }
    }
}

/// Words are never empty and never hold a space, and every nonempty piece
/// between spaces is a word.
pub proof fn law_words_shape(s: Seq<u8>)
    ensures
        forall|i: int| 0 <= i < words(s).len() ==> (#[trigger] words(s)[i]).len() > 0,
        forall|i: int, j: int| 0 <= i < words(s).len() && 0 <= j < words(s)[i].len() ==> #[trigger] words(s)[i][j]
            != 32,
        forall|i: int| 0 <= i < fields(s, 32).len() && (#[trigger] fields(s, 32)[i]).len() > 0 ==> words(s).contains(
            fields(s, 32)[i],
        ),
{
    let fs = fields(s, 32);
    law_fields_rejoin(s, 32);
    assert forall|i: int| 0 <= i < words(s).len() implies (#[trigger] words(s)[i]).len() > 0 by {
        fs.lemma_filter_pred(nonempty(), i);
    }
    assert forall|i: int, j: int| 0 <= i < words(s).len() && 0 <= j < words(s)[i].len() implies #[trigger] words(
        s,
    )[i][j] != 32 by {
        let w = words(s)[i];
        assert(words(s).contains(w));
        fs.lemma_filter_contains_rev(nonempty(), w);
        let k = choose|k: int| 0 <= k < fs.len() && fs[k] == w;
        assert(fs[k][j] != 32);
    }
    assert forall|i: int| 0 <= i < fs.len() && (#[trigger] fs[i]).len() > 0 implies words(s).contains(fs[i]) by {
        fs.lemma_filter_contains(nonempty(), i);
    }
}

/// The first `k` bytes of `s` scanned one byte further.
proof fn lemma_scan_step(s: Seq<u8>, k: int, sep: u8)
    requires
        0 <= k < s.len(),
    ensures
        s.take(k + 1).drop_last() =~= s.take(k),
        s.take(k + 1).last() == s[k],
        fields_scan(s.take(k + 1), sep) == (if s[k] == sep {
            (fields_scan(s.take(k), sep).0.push(fields_scan(s.take(k), sep).1), Seq::<u8>::empty())
        } else {
            (fields_scan(s.take(k), sep).0, fields_scan(s.take(k), sep).1.push(s[k]))
        }),
{
    assert(s.take(k + 1).drop_last() =~= s.take(k));
}

/// Filtering a sequence that grew by one element.
proof fn lemma_filter_push(done: Seq<Seq<u8>>, cur: Seq<u8>)
    ensures
        done.push(cur).filter(nonempty()) == (if cur.len() > 0 {
            done.filter(nonempty()).push(cur)
        } else {
            done.filter(nonempty())
        }),
{
    reveal(Seq::filter);
    assert(done.push(cur).drop_last() =~= done);
}

/// The pieces of `s` around the separator `sep`.
pub fn split_fields(s: &Vec<u8>, sep: u8) -> (r: Vec<Vec<u8>>)
    ensures
        texts(r@) == fields(s@, sep),
{
    let mut done: Vec<Vec<u8>> = Vec::new();
    let mut cur: Vec<u8> = Vec::new();
    let mut i: usize = 0;
    assert(s@.take(0) =~= Seq::<u8>::empty());
    while i < s.len()
        invariant
            i <= s.len(),
            texts(done@) == fields_scan(s@.take(i as int), sep).0,
            cur@ == fields_scan(s@.take(i as int), sep).1,
        decreases s.len() - i,
    {
        proof {
            lemma_scan_step(s@, i as int, sep);
        }
        let b = s[i];
        if b == sep {
            let ghost old_done = done@;
            done.push(cur);
            assert(texts(done@) =~= texts(old_done).push(texts(done@).last()));
            cur = Vec::new();
        } else {
            cur.push(b);
        }
        i = i + 1;
    }
    assert(s@.take(s@.len() as int) =~= s@);
    let ghost old_done = done@;
    done.push(cur);
    assert(texts(done@) =~= texts(old_done).push(texts(done@).last()));
    done
}

/// The words of `s` from byte `start` on.
pub fn split_words(s: &Vec<u8>, start: usize) -> (r: Vec<Vec<u8>>)
    requires
        start <= s.len(),
    ensures
        texts(r@) == words(s@.skip(start as int)),
        forall|j: int| 0 <= j < r@.len() ==> (#[trigger] r@[j])@.len() > 0,
{
    let ghost t = s@.skip(start as int);
    let mut out: Vec<Vec<u8>> = Vec::new();
    let mut cur: Vec<u8> = Vec::new();
    let mut i: usize = start;
    assert(t.take(0) =~= Seq::<u8>::empty());
    while i < s.len()
        invariant
            start <= i <= s.len(),
            t == s@.skip(start as int),
            texts(out@) == fields_scan(t.take(i - start), 32).0.filter(nonempty()),
            cur@ == fields_scan(t.take(i - start), 32).1,
            forall|j: int| 0 <= j < out@.len() ==> (#[trigger] out@[j])@.len() > 0,
        decreases s.len() - i,
    {
        let ghost k = i - start;
        proof {
            lemma_scan_step(t, k, 32);
            lemma_filter_push(fields_scan(t.take(k), 32).0, fields_scan(t.take(k), 32).1);
        }
        let b = s[i];
        assert(t[k] == b);
        if b == 32 {
            if cur.len() > 0 {
                let ghost old_out = out@;
                out.push(cur);
                assert(texts(out@) =~= texts(old_out).push(texts(out@).last()));
            }
            cur = Vec::new();
        } else {
            cur.push(b);
        }
        i = i + 1;
    }
    assert(t.take(s@.len() - start) =~= t);
    proof {
        lemma_filter_push(fields_scan(t, 32).0, fields_scan(t, 32).1);
    }
    if cur.len() > 0 {
        let ghost old_out = out@;
        out.push(cur);
        assert(texts(out@) =~= texts(old_out).push(texts(out@).last()));
    }
    out
}

} // verus!
