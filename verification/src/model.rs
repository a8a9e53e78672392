//! A sequence-level model of the splitting algorithm: separator
//! selection, recursive descent, and merge-with-overlap, written as pure
//! functions over character sequences. The executable splitter is proved
//! to return exactly what this model describes, and the library's laws
//! are proved of the model.

use vstd::prelude::*;
use crate::length::LengthFunction;
use crate::length::measure;
use crate::text::concat_seqs;
use crate::text::contains_sub;
use crate::text::split_incl;
use crate::text::trim_spec;
use crate::text::lemma_concat_push;
use crate::text::lemma_concat_append;
use crate::text::lemma_split_incl_concat;
use crate::text::lemma_trim_idempotent;
use crate::text::proof_find_first_bounds;
use crate::text::find_first;

verus! {

/// The index, scanning from `i`, of the first separator that is empty or
/// occurs in the trimmed text; the last index when none qualifies.
pub open spec fn select_from(trimmed: Seq<char>, seps: Seq<Seq<char>>, i: int) -> int
    decreases seps.len() - i,
{
    if i < 0 || i >= seps.len() {
        if seps.len() == 0 {
            0
        } else {
            seps.len() - 1
        }
    } else if seps[i].len() == 0 || contains_sub(trimmed, seps[i]) {
        i
    } else {
        select_from(trimmed, seps, i + 1)
    }
}

/// Where the remaining separator candidates start after selecting index
/// `j`: past the end when the empty separator was selected (there is
/// nothing finer), else the next index.
pub open spec fn next_start(seps: Seq<Seq<char>>, j: int) -> int {
    if 0 <= j < seps.len() && seps[j].len() == 0 {
        seps.len() as int
    } else {
        j + 1
    }
}

pub proof fn lemma_select_from_range(trimmed: Seq<char>, seps: Seq<Seq<char>>, i: int)
    requires
        0 <= i < seps.len(),
    ensures
        i <= select_from(trimmed, seps, i) < seps.len(),
    decreases seps.len() - i,
{
    if seps[i].len() == 0 || contains_sub(trimmed, seps[i]) {
    } else if i + 1 < seps.len() {
        lemma_select_from_range(trimmed, seps, i + 1);
    }
}

/// The sum of the pieces' sizes under `lf`.
pub open spec fn sum_measure(lf: LengthFunction, ws: Seq<Seq<char>>) -> nat
    decreases ws.len(),
{
    if ws.len() == 0 {
        0
    } else {
        measure(lf, ws[0]) + sum_measure(lf, ws.drop_first())
    }
}

/// The window after evicting pieces from the front, given the size of
/// the piece about to be appended: pieces leave while the running total
/// exceeds the overlap, or while appending would overflow the chunk size
/// and something is left to remove.
pub open spec fn evict(
    lf: LengthFunction,
    csize: nat,
    cov: nat,
    window: Seq<Seq<char>>,
    d_len: nat,
) -> Seq<Seq<char>>
    decreases window.len(),
{
    let total = sum_measure(lf, window);
    if total > cov || (total + d_len > csize && total > 0) {
        if window.len() == 0 {
            window
        } else {
            evict(lf, csize, cov, window.drop_first(), d_len)
        }
    } else {
        window
    }
}

/// The window joined into one chunk, emitted only if non-empty.
pub open spec fn flush_window(window: Seq<Seq<char>>) -> Seq<Seq<char>> {
    if concat_seqs(window).len() == 0 {
        Seq::empty()
    } else {
        seq![concat_seqs(window)]
    }
}

/// The chunks that merging emits, given the pieces still to come and the
/// current sliding window.
pub open spec fn merge_loop(
    lf: LengthFunction,
    csize: nat,
    cov: nat,
    splits: Seq<Seq<char>>,
    window: Seq<Seq<char>>,
) -> Seq<Seq<char>>
    decreases splits.len(),
{
    if splits.len() == 0 {
        flush_window(window)
    } else {
        let d = splits[0];
        let d_len = measure(lf, d);
        let total = sum_measure(lf, window);
        if total + d_len > csize {
            if cov == 0 {
                flush_window(window) + merge_loop(lf, csize, cov, splits.drop_first(), seq![d])
            } else {
                flush_window(window) + merge_loop(
                    lf,
                    csize,
                    cov,
                    splits.drop_first(),
                    evict(lf, csize, cov, window, d_len).push(d),
                )
            }
        } else {
            merge_loop(lf, csize, cov, splits.drop_first(), window.push(d))
        }
    }
}

/// The chunks of a whole run of small pieces.
pub open spec fn merge_splits(
    lf: LengthFunction,
    csize: nat,
    cov: nat,
    splits: Seq<Seq<char>>,
) -> Seq<Seq<char>> {
    merge_loop(lf, csize, cov, splits, Seq::empty())
}

/// The chunks of one level of recursive descent: split on the selected
/// separator, accumulate runs of small pieces, merge each run, and
/// subdivide each oversized piece with the finer separators (or emit it
/// verbatim when none remain).
pub open spec fn descend(
    lf: LengthFunction,
    csize: nat,
    cov: nat,
    text: Seq<char>,
    seps: Seq<Seq<char>>,
    i: int,
) -> Seq<Seq<char>>
    decreases seps.len() - i, 0int, 0int,
    via descend_decreases
{
    if i < 0 || i >= seps.len() {
        seq![text]
    } else {
        let j = select_from(trim_spec(text), seps, i);
        let sep = seps[j];
        process_pieces(
            lf,
            csize,
            cov,
            split_incl(text, sep),
            seps,
            next_start(seps, j),
            Seq::empty(),
        )
    }
}

#[via_fn]
proof fn descend_decreases(
    lf: LengthFunction,
    csize: nat,
    cov: nat,
    text: Seq<char>,
    seps: Seq<Seq<char>>,
    i: int,
) {
    if 0 <= i < seps.len() {
        lemma_select_from_range(trim_spec(text), seps, i);
    }
}

/// Walks the pieces of one level in order, carrying the pending run of
/// small pieces.
pub open spec fn process_pieces(
    lf: LengthFunction,
    csize: nat,
    cov: nat,
    pieces: Seq<Seq<char>>,
    seps: Seq<Seq<char>>,
    ni: int,
    pending: Seq<Seq<char>>,
) -> Seq<Seq<char>>
    decreases seps.len() - ni, 1int, pieces.len() as int,
{
    if pieces.len() == 0 {
        if pending.len() == 0 {
            Seq::empty()
        } else {
            merge_splits(lf, csize, cov, pending)
        }
    } else {
        let p = pieces[0];
        if measure(lf, p) < csize {
            process_pieces(lf, csize, cov, pieces.drop_first(), seps, ni, pending.push(p))
        } else {
            let flushed = if pending.len() > 0 {
                merge_splits(lf, csize, cov, pending)
            } else {
                Seq::empty()
            };
            let mid = if ni >= seps.len() {
                seq![p]
            } else {
                descend(lf, csize, cov, p, seps, ni)
            };
            flushed + mid + process_pieces(lf, csize, cov, pieces.drop_first(), seps, ni, Seq::empty())
        }
    }
}

/// Trim every chunk and drop the ones that become empty, keeping order.
pub open spec fn trim_filter(chunks: Seq<Seq<char>>) -> Seq<Seq<char>>
    decreases chunks.len(),
{
    if chunks.len() == 0 {
        Seq::empty()
    } else {
        let t = trim_spec(chunks[0]);
        let rest = trim_filter(chunks.drop_first());
        if t.len() == 0 {
            rest
        } else {
            seq![t] + rest
        }
    }
}

/// Everything `split_text` returns: the chunks of the full descent,
/// trimmed and filtered when trimming is on.
pub open spec fn split_model(
    lf: LengthFunction,
    csize: nat,
    cov: nat,
    trim: bool,
    seps: Seq<Seq<char>>,
    text: Seq<char>,
) -> Seq<Seq<char>> {
    let chunks = descend(lf, csize, cov, text, seps, 0);
    if trim {
        trim_filter(chunks)
    } else {
        chunks
    }
}

proof fn lemma_flush_concat(window: Seq<Seq<char>>)
    ensures
        concat_seqs(flush_window(window)) == concat_seqs(window),
{
    if concat_seqs(window).len() == 0 {
        assert(concat_seqs(flush_window(window)) =~= concat_seqs(window));
    } else {
        let cw = concat_seqs(window);
        assert(seq![cw][0] == cw);
        assert(seq![cw].drop_first() =~= Seq::<Seq<char>>::empty());
        assert(concat_seqs(seq![cw]) == cw + concat_seqs(Seq::<Seq<char>>::empty()));
        assert(concat_seqs(flush_window(window)) =~= concat_seqs(window));
    }
}

/// With no overlap, merging only regroups: the emitted chunks
/// concatenate to the window followed by the remaining pieces.
pub proof fn lemma_merge_loop_concat(
    lf: LengthFunction,
    csize: nat,
    splits: Seq<Seq<char>>,
    window: Seq<Seq<char>>,
)
    ensures
        concat_seqs(merge_loop(lf, csize, 0, splits, window)) == concat_seqs(window) + concat_seqs(
            splits,
        ),
    decreases splits.len(),
{
    if splits.len() == 0 {
        lemma_flush_concat(window);
        assert(concat_seqs(window) + concat_seqs(splits) =~= concat_seqs(window));
    } else {
        let d = splits[0];
        let d_len = measure(lf, d);
        let total = sum_measure(lf, window);
        if total + d_len > csize {
            lemma_merge_loop_concat(lf, csize, splits.drop_first(), seq![d]);
            lemma_flush_concat(window);
            lemma_concat_append(
                flush_window(window),
                merge_loop(lf, csize, 0, splits.drop_first(), seq![d]),
            );
            assert(seq![d][0] == d);
            assert(seq![d].drop_first() =~= Seq::<Seq<char>>::empty());
            assert(concat_seqs(seq![d]) == d + concat_seqs(Seq::<Seq<char>>::empty()));
            assert(concat_seqs(merge_loop(lf, csize, 0, splits, window)) =~= concat_seqs(window)
                + concat_seqs(splits));
        } else {
            lemma_merge_loop_concat(lf, csize, splits.drop_first(), window.push(d));
            lemma_concat_push(window, d);
            assert(concat_seqs(merge_loop(lf, csize, 0, splits, window)) =~= concat_seqs(window)
                + concat_seqs(splits));
        }
    }
}

/// Reconstruction, descent level: with no overlap the chunks of the
/// descent concatenate to the input text exactly, whatever the
/// separators, the chunk size and the length function.
pub proof fn lemma_descend_concat(
    lf: LengthFunction,
    csize: nat,
    text: Seq<char>,
    seps: Seq<Seq<char>>,
    i: int,
)
    ensures
        concat_seqs(descend(lf, csize, 0, text, seps, i)) == text,
    decreases seps.len() - i, 0int, 0int,
{
    if i < 0 || i >= seps.len() {
        let ss = descend(lf, csize, 0, text, seps, i);
        assert(ss[0] == text);
        assert(ss.drop_first() =~= Seq::<Seq<char>>::empty());
        assert(concat_seqs(ss) == text + concat_seqs(Seq::<Seq<char>>::empty()));
        assert(concat_seqs(ss) =~= text);
    } else {
        lemma_select_from_range(trim_spec(text), seps, i);
        let j = select_from(trim_spec(text), seps, i);
        let sep = seps[j];
        lemma_split_incl_concat(text, sep);
        lemma_process_concat(lf, csize, split_incl(text, sep), seps, next_start(seps, j), Seq::empty());
        assert(concat_seqs(Seq::<Seq<char>>::empty()) + text =~= text);
    }
}

/// Reconstruction, piece level: with no overlap the emitted chunks
/// concatenate to the pending run followed by the remaining pieces.
pub proof fn lemma_process_concat(
    lf: LengthFunction,
    csize: nat,
    pieces: Seq<Seq<char>>,
    seps: Seq<Seq<char>>,
    ni: int,
    pending: Seq<Seq<char>>,
)
    ensures
        concat_seqs(process_pieces(lf, csize, 0, pieces, seps, ni, pending)) == concat_seqs(pending)
            + concat_seqs(pieces),
    decreases seps.len() - ni, 1int, pieces.len() as int,
{
    if pieces.len() == 0 {
        if pending.len() == 0 {
            assert(concat_seqs(process_pieces(lf, csize, 0, pieces, seps, ni, pending))
                =~= concat_seqs(pending) + concat_seqs(pieces));
        } else {
            lemma_merge_loop_concat(lf, csize, pending, Seq::empty());
            assert(concat_seqs(Seq::<Seq<char>>::empty()) + concat_seqs(pending) =~= concat_seqs(
                pending,
            ));
            assert(concat_seqs(pending) + concat_seqs(pieces) =~= concat_seqs(pending));
        }
    } else {
        let p = pieces[0];
        if measure(lf, p) < csize {
            lemma_process_concat(lf, csize, pieces.drop_first(), seps, ni, pending.push(p));
            lemma_concat_push(pending, p);
            assert(concat_seqs(pieces) == p + concat_seqs(pieces.drop_first()));
            assert(concat_seqs(process_pieces(lf, csize, 0, pieces, seps, ni, pending))
                =~= concat_seqs(pending) + concat_seqs(pieces));
        } else {
            let flushed = if pending.len() > 0 {
                merge_splits(lf, csize, 0, pending)
            } else {
                Seq::<Seq<char>>::empty()
            };
            let mid = if ni >= seps.len() {
                seq![p]
            } else {
                descend(lf, csize, 0, p, seps, ni)
            };
            let rest = process_pieces(lf, csize, 0, pieces.drop_first(), seps, ni, Seq::empty());
            if pending.len() > 0 {
                lemma_merge_loop_concat(lf, csize, pending, Seq::empty());
                assert(concat_seqs(Seq::<Seq<char>>::empty()) + concat_seqs(pending) =~= concat_seqs(
                    pending,
                ));
            } else {
                assert(concat_seqs(flushed) =~= concat_seqs(pending));
            }
            if ni >= seps.len() {
                assert(mid[0] == p);
                assert(mid.drop_first() =~= Seq::<Seq<char>>::empty());
                assert(concat_seqs(mid) == p + concat_seqs(Seq::<Seq<char>>::empty()));
                assert(concat_seqs(mid) =~= p);
            } else {
                lemma_descend_concat(lf, csize, p, seps, ni);
            }
            lemma_process_concat(lf, csize, pieces.drop_first(), seps, ni, Seq::empty());
            lemma_concat_append(flushed + mid, rest);
            lemma_concat_append(flushed, mid);
            assert(concat_seqs(pieces) == p + concat_seqs(pieces.drop_first()));
            assert(concat_seqs(rest) =~= concat_seqs(pieces.drop_first()));
            assert(concat_seqs(process_pieces(lf, csize, 0, pieces, seps, ni, pending))
                =~= concat_seqs(pending) + concat_seqs(pieces));
        }
    }
}

/// Reconstruction: with no overlap and no trimming, the chunks of the
/// whole split concatenate to the input text exactly — the algorithm
/// never drops, reorders or invents characters.
pub proof fn lemma_reconstruction(
    lf: LengthFunction,
    csize: nat,
    seps: Seq<Seq<char>>,
    text: Seq<char>,
)
    ensures
        concat_seqs(split_model(lf, csize, 0, false, seps, text)) == text,
{
    lemma_descend_concat(lf, csize, text, seps, 0);
}

/// Idempotence of trimming, list level: trimming a trimmed output
/// leaves it unchanged, and no chunk of a trimmed output is empty or
/// still carries surrounding whitespace.
pub proof fn lemma_trim_filter_props(chunks: Seq<Seq<char>>)
    ensures
        trim_filter(trim_filter(chunks)) == trim_filter(chunks),
        forall|k: int|
            0 <= k < trim_filter(chunks).len() ==> (#[trigger] trim_filter(chunks)[k]).len() > 0
                && trim_spec(trim_filter(chunks)[k]) == trim_filter(chunks)[k],
    decreases chunks.len(),
{
    if chunks.len() == 0 {
    } else {
        let t = trim_spec(chunks[0]);
        let rest = trim_filter(chunks.drop_first());
        lemma_trim_filter_props(chunks.drop_first());
        lemma_trim_idempotent(chunks[0]);
        if t.len() == 0 {
        } else {
            let whole = seq![t] + rest;
            assert(trim_filter(chunks) == whole);
            assert(whole[0] == t);
            assert(whole.drop_first() =~= rest);
            assert(trim_filter(whole) == seq![trim_spec(t)] + trim_filter(rest));
            assert(seq![trim_spec(t)] + trim_filter(rest) =~= whole);
            assert forall|k: int| 0 <= k < whole.len() implies (#[trigger] whole[k]).len() > 0
                && trim_spec(whole[k]) == whole[k] by {
                if k >= 1 {
                    assert(whole[k] == rest[k - 1]);
                }
            }
        }
    }
}

pub proof fn lemma_select_from_min(trimmed: Seq<char>, seps: Seq<Seq<char>>, i: int, k: int)
    requires
        0 <= i <= k < seps.len(),
        seps[k].len() == 0 || contains_sub(trimmed, seps[k]),
    ensures
        select_from(trimmed, seps, i) <= k,
    decreases k - i,
{
    if seps[i].len() == 0 || contains_sub(trimmed, seps[i]) {
    } else {
        lemma_select_from_min(trimmed, seps, i + 1, k);
    }
}

proof fn lemma_single_piece_merge(lf: LengthFunction, cs: nat, co: nat, d: Seq<char>)
    requires
        d.len() >= 1,
    ensures
        merge_splits(lf, cs, co, seq![d]) == seq![d],
{
    let s = seq![d];
    let w0 = Seq::<Seq<char>>::empty();
    assert(s[0] == d);
    assert(s.drop_first() =~= Seq::<Seq<char>>::empty());
    assert(sum_measure(lf, w0) == 0);
    assert(concat_seqs(seq![d]) == d + concat_seqs(Seq::<Seq<char>>::empty()));
    assert(concat_seqs(seq![d]) =~= d);
    assert(concat_seqs(w0).len() == 0);
    assert(flush_window(w0) =~= Seq::<Seq<char>>::empty());
    assert(flush_window(seq![d]) == seq![d]);
    let d_len = measure(lf, d);
    if 0 + d_len > cs {
        if co == 0 {
            assert(merge_loop(lf, cs, co, s, w0) == flush_window(w0) + merge_loop(
                lf,
                cs,
                co,
                s.drop_first(),
                seq![d],
            ));
            assert(merge_loop(lf, cs, co, s.drop_first(), seq![d]) == flush_window(seq![d]));
            assert(merge_loop(lf, cs, co, s, w0) =~= seq![d]);
        } else {
            assert(evict(lf, cs, co, w0, d_len) == w0);
            assert(w0.push(d) =~= seq![d]);
            assert(merge_loop(lf, cs, co, s, w0) == flush_window(w0) + merge_loop(
                lf,
                cs,
                co,
                s.drop_first(),
                seq![d],
            ));
            assert(merge_loop(lf, cs, co, s.drop_first(), seq![d]) == flush_window(seq![d]));
            assert(merge_loop(lf, cs, co, s, w0) =~= seq![d]);
        }
    } else {
        assert(w0.push(d) =~= seq![d]);
        assert(merge_loop(lf, cs, co, s, w0) == merge_loop(lf, cs, co, s.drop_first(), seq![d]));
        assert(merge_loop(lf, cs, co, s.drop_first(), seq![d]) == flush_window(seq![d]));
    }
}

/// Oversize passthrough: a text of a single character — one the
/// separator list cannot subdivide further — comes back as its own
/// chunk unchanged, whatever its size, as long as the empty fallback
/// separator is among the remaining candidates.
pub proof fn lemma_oversize_passthrough(
    lf: LengthFunction,
    cs: nat,
    co: nat,
    text: Seq<char>,
    seps: Seq<Seq<char>>,
    i: int,
)
    requires
        text.len() == 1,
        0 <= i,
        exists|k: int| i <= k < seps.len() && (#[trigger] seps[k]).len() == 0,
    ensures
        descend(lf, cs, co, text, seps, i) == seq![text],
    decreases seps.len() - i,
{
    let k = choose|k: int| i <= k < seps.len() && (#[trigger] seps[k]).len() == 0;
    assert(i < seps.len());
    lemma_select_from_range(trim_spec(text), seps, i);
    lemma_select_from_min(trim_spec(text), seps, i, k);
    let j = select_from(trim_spec(text), seps, i);
    let sep = seps[j];
    let ni = next_start(seps, j);
    let pieces = split_incl(text, sep);
    // the split of a single character is that character alone
    if sep.len() == 0 {
        assert(pieces == Seq::new(text.len(), |q: int| seq![text[q]]));
        assert(seq![text[0]] =~= text);
        assert(pieces =~= seq![text]);
    } else {
        proof_find_first_bounds(text, sep);
        match find_first(text, sep) {
            Some(f) => {
                assert(f == 0 && sep.len() == 1);
                assert(text.subrange(0, 1) =~= text);
                assert(text.subrange(1, 1) =~= Seq::<char>::empty());
                assert(split_incl(Seq::<char>::empty(), sep) =~= Seq::<Seq<char>>::empty());
                assert(pieces =~= seq![text]);
            },
            None => {
                assert(pieces =~= seq![text]);
            },
        }
    }
    assert(descend(lf, cs, co, text, seps, i) == process_pieces(
        lf,
        cs,
        co,
        seq![text],
        seps,
        ni,
        Seq::empty(),
    ));
    let e = Seq::<Seq<char>>::empty();
    assert(seq![text][0] == text);
    assert(seq![text].drop_first() =~= e);
    if measure(lf, text) < cs {
        assert(e.push(text) =~= seq![text]);
        assert(process_pieces(lf, cs, co, seq![text], seps, ni, e) == process_pieces(
            lf,
            cs,
            co,
            e,
            seps,
            ni,
            seq![text],
        ));
        lemma_single_piece_merge(lf, cs, co, text);
    } else {
        let mid = if ni >= seps.len() {
            seq![text]
        } else {
            descend(lf, cs, co, text, seps, ni)
        };
        if ni < seps.len() {
            // the empty separator still lies among the finer candidates
            assert(sep.len() != 0);
            assert(j != k);
            assert(j < k);
            assert(ni == j + 1);
            assert(ni <= k < seps.len() && seps[k].len() == 0);
            lemma_oversize_passthrough(lf, cs, co, text, seps, ni);
        }
        assert(mid == seq![text]);
        assert(process_pieces(lf, cs, co, e, seps, ni, e) == e);
        assert(process_pieces(lf, cs, co, seq![text], seps, ni, e) == e + mid + e);
        assert(e + mid + e =~= seq![text]);
    }
}

/// With every remaining piece small, processing just merges the whole
/// run: pending followed by the pieces.
proof fn lemma_process_all_small(
    lf: LengthFunction,
    cs: nat,
    co: nat,
    pieces: Seq<Seq<char>>,
    seps: Seq<Seq<char>>,
    ni: int,
    pending: Seq<Seq<char>>,
)
    requires
        forall|t: int| 0 <= t < pieces.len() ==> measure(lf, #[trigger] pieces[t]) < cs,
        pending.len() + pieces.len() > 0,
    ensures
        process_pieces(lf, cs, co, pieces, seps, ni, pending) == merge_splits(
            lf,
            cs,
            co,
            pending + pieces,
        ),
    decreases pieces.len(),
{
    if pieces.len() == 0 {
        assert(pending + pieces =~= pending);
    } else {
        let p = pieces[0];
        assert(measure(lf, p) < cs);
        lemma_process_all_small(lf, cs, co, pieces.drop_first(), seps, ni, pending.push(p));
        assert(pending.push(p) + pieces.drop_first() =~= pending + pieces);
    }
}

/// Whatever the window held, eviction leaves retained pieces whose
/// sizes sum to at most the overlap budget, and appending the next
/// piece will not overflow the chunk size unless nothing was retained.
pub proof fn lemma_evict_post(lf: LengthFunction, cs: nat, co: nat, w: Seq<Seq<char>>, d_len: nat)
    ensures
        sum_measure(lf, evict(lf, cs, co, w, d_len)) <= co,
        sum_measure(lf, evict(lf, cs, co, w, d_len)) + d_len <= cs || sum_measure(
            lf,
            evict(lf, cs, co, w, d_len),
        ) == 0,
    decreases w.len(),
{
    let total = sum_measure(lf, w);
    if total > co || (total + d_len > cs && total > 0) {
        if w.len() == 0 {
            assert(total == 0);
        } else {
            lemma_evict_post(lf, cs, co, w.drop_first(), d_len);
        }
    }
}

/// A chunk that is the concatenation of pieces whose sizes sum to at
/// most `cs`.
pub open spec fn bounded_chunk(lf: LengthFunction, cs: nat, c: Seq<char>) -> bool {
    exists|ws: Seq<Seq<char>>| c == concat_seqs(ws) && sum_measure(lf, ws) <= cs
}

/// Bounded size: when every piece of a run is smaller than the chunk
/// size, every chunk the merge emits is the concatenation of pieces
/// whose sizes sum to at most the chunk size.
pub proof fn lemma_merge_loop_bounded(
    lf: LengthFunction,
    cs: nat,
    co: nat,
    splits: Seq<Seq<char>>,
    window: Seq<Seq<char>>,
)
    requires
        forall|t: int| 0 <= t < splits.len() ==> measure(lf, #[trigger] splits[t]) < cs,
        sum_measure(lf, window) <= cs,
    ensures
        forall|k: int|
            0 <= k < merge_loop(lf, cs, co, splits, window).len() ==> bounded_chunk(
                lf,
                cs,
                #[trigger] merge_loop(lf, cs, co, splits, window)[k],
            ),
    decreases splits.len(),
{
    let out = merge_loop(lf, cs, co, splits, window);
    if splits.len() == 0 {
        if concat_seqs(window).len() == 0 {
        } else {
            assert forall|k: int| 0 <= k < out.len() implies bounded_chunk(
                lf,
                cs,
                #[trigger] out[k],
            ) by {
                assert(out[0] == concat_seqs(window) && sum_measure(lf, window) <= cs);
            }
        }
    } else {
        let d = splits[0];
        let d_len = measure(lf, d);
        let total = sum_measure(lf, window);
        assert(d_len < cs);
        if total + d_len > cs {
            let w2 = if co == 0 {
                Seq::<Seq<char>>::empty()
            } else {
                evict(lf, cs, co, window, d_len)
            };
            if co == 0 {
                assert(sum_measure(lf, w2) == 0);
                assert(w2.push(d) =~= seq![d]);
            } else {
                lemma_evict_post(lf, cs, co, window, d_len);
            }
            lemma_sum_push(lf, w2, d);
            assert(sum_measure(lf, w2.push(d)) <= cs);
            lemma_merge_loop_bounded(lf, cs, co, splits.drop_first(), w2.push(d));
            let rec = merge_loop(lf, cs, co, splits.drop_first(), w2.push(d));
            assert(out == flush_window(window) + rec);
            assert forall|k: int| 0 <= k < out.len() implies bounded_chunk(
                lf,
                cs,
                #[trigger] out[k],
            ) by {
                if concat_seqs(window).len() == 0 {
                    assert(out[k] == rec[k]);
                } else if k == 0 {
                    assert(out[0] == concat_seqs(window) && sum_measure(lf, window) <= cs);
                } else {
                    assert(out[k] == rec[k - 1]);
                }
            }
        } else {
            lemma_sum_push(lf, window, d);
            lemma_merge_loop_bounded(lf, cs, co, splits.drop_first(), window.push(d));
            let rec = merge_loop(lf, cs, co, splits.drop_first(), window.push(d));
            assert(out == rec);
            assert forall|k: int| 0 <= k < out.len() implies bounded_chunk(
                lf,
                cs,
                #[trigger] out[k],
            ) by {
                assert(out[k] == rec[k]);
            }
        }
    }
}

/// Appending a piece adds its size to the window's running total.
pub proof fn lemma_sum_push(lf: LengthFunction, ws: Seq<Seq<char>>, x: Seq<char>)
    ensures
        sum_measure(lf, ws.push(x)) == sum_measure(lf, ws) + measure(lf, x),
    decreases ws.len(),
{
    if ws.len() == 0 {
        assert(ws.push(x).drop_first() =~= Seq::<Seq<char>>::empty());
        assert(ws.push(x)[0] == x);
        assert(sum_measure(lf, Seq::<Seq<char>>::empty()) == 0);
        assert(sum_measure(lf, ws.push(x)) == measure(lf, x) + sum_measure(
            lf,
            Seq::<Seq<char>>::empty(),
        ));
    } else {
        assert(ws.push(x).drop_first() =~= ws.drop_first().push(x));
        assert(ws.push(x)[0] == ws[0]);
        lemma_sum_push(lf, ws.drop_first(), x);
        assert(sum_measure(lf, ws.push(x)) == measure(lf, ws[0]) + sum_measure(
            lf,
            ws.drop_first().push(x),
        ));
    }
}

/// Bounded size, descent level: when every piece cut at the selected
/// separator level is smaller than the chunk size, every chunk of the
/// descent is a concatenation of pieces whose sizes sum to at most the
/// chunk size.
pub proof fn lemma_bounded_size(
    lf: LengthFunction,
    cs: nat,
    co: nat,
    text: Seq<char>,
    seps: Seq<Seq<char>>,
    i: int,
)
    requires
        0 <= i < seps.len(),
        forall|t: int|
            0 <= t < split_incl(text, seps[select_from(trim_spec(text), seps, i)]).len()
                ==> measure(
                lf,
                #[trigger] split_incl(text, seps[select_from(trim_spec(text), seps, i)])[t],
            ) < cs,
    ensures
        forall|k: int|
            0 <= k < descend(lf, cs, co, text, seps, i).len() ==> bounded_chunk(
                lf,
                cs,
                #[trigger] descend(lf, cs, co, text, seps, i)[k],
            ),
{
    lemma_select_from_range(trim_spec(text), seps, i);
    let j = select_from(trim_spec(text), seps, i);
    let pieces = split_incl(text, seps[j]);
    let ni = next_start(seps, j);
    assert(descend(lf, cs, co, text, seps, i) == process_pieces(
        lf,
        cs,
        co,
        pieces,
        seps,
        ni,
        Seq::empty(),
    ));
    let out = descend(lf, cs, co, text, seps, i);
    if pieces.len() == 0 {
        assert(process_pieces(lf, cs, co, pieces, seps, ni, Seq::<Seq<char>>::empty())
            == Seq::<Seq<char>>::empty());
    } else {
        lemma_process_all_small(lf, cs, co, pieces, seps, ni, Seq::empty());
        assert(Seq::<Seq<char>>::empty() + pieces =~= pieces);
        assert(sum_measure(lf, Seq::<Seq<char>>::empty()) == 0);
        lemma_merge_loop_bounded(lf, cs, co, pieces, Seq::empty());
        assert(out == merge_loop(lf, cs, co, pieces, Seq::<Seq<char>>::empty()));
        assert forall|k: int|
            0 <= k < descend(lf, cs, co, text, seps, i).len() implies bounded_chunk(
            lf,
            cs,
            #[trigger] descend(lf, cs, co, text, seps, i)[k],
        ) by {
            assert(descend(lf, cs, co, text, seps, i)[k] == merge_loop(
                lf,
                cs,
                co,
                pieces,
                Seq::<Seq<char>>::empty(),
            )[k]);
        }
    }
}

/// `w` is a suffix of `s`.
pub open spec fn is_suffix_of(w: Seq<char>, s: Seq<char>) -> bool {
    w.len() <= s.len() && s.subrange(s.len() - w.len(), s.len() as int) == w
}

/// `w` is a prefix of `s`.
pub open spec fn is_prefix_of(w: Seq<char>, s: Seq<char>) -> bool {
    w.len() <= s.len() && s.subrange(0, w.len() as int) == w
}

/// Two consecutive chunks share a non-empty stretch of text within the
/// overlap budget: the concatenation of some retained pieces, of sizes
/// summing to at most `co`, is a suffix of `a` and a prefix of `b`.
/// The overlap is whole pieces, so it approximates `co` from below.
pub open spec fn chunks_overlap_within(
    lf: LengthFunction,
    co: nat,
    a: Seq<char>,
    b: Seq<char>,
) -> bool {
    exists|ws: Seq<Seq<char>>|
        concat_seqs(ws).len() >= 1 && sum_measure(lf, ws) <= co && is_suffix_of(
            concat_seqs(ws),
            a,
        ) && is_prefix_of(concat_seqs(ws), b)
}

/// Pieces small enough for the eviction loop always to retain
/// something: each fits in the overlap budget, and any two fit in a
/// chunk together.
pub open spec fn retention_friendly(
    lf: LengthFunction,
    cs: nat,
    co: nat,
    ps: Seq<Seq<char>>,
) -> bool {
    forall|t: int|
        0 <= t < ps.len() ==> ((#[trigger] ps[t]).len() >= 1 && measure(lf, ps[t]) <= co && 2
            * measure(lf, ps[t]) <= cs)
}

proof fn lemma_concat_nonempty(ws: Seq<Seq<char>>)
    requires
        ws.len() >= 1,
        ws[0].len() >= 1,
    ensures
        concat_seqs(ws).len() >= 1,
{
    assert(concat_seqs(ws) == ws[0] + concat_seqs(ws.drop_first()));
}

proof fn lemma_evict_is_suffix(lf: LengthFunction, cs: nat, co: nat, w: Seq<Seq<char>>, d_len: nat)
    ensures
        evict(lf, cs, co, w, d_len).len() <= w.len(),
        evict(lf, cs, co, w, d_len) == w.subrange(
            w.len() - evict(lf, cs, co, w, d_len).len(),
            w.len() as int,
        ),
    decreases w.len(),
{
    let w2 = evict(lf, cs, co, w, d_len);
    let total = sum_measure(lf, w);
    if (total > co || (total + d_len > cs && total > 0)) && w.len() >= 1 {
        lemma_evict_is_suffix(lf, cs, co, w.drop_first(), d_len);
        assert(w.drop_first().subrange(w.drop_first().len() - w2.len(), w.drop_first().len() as int)
            =~= w.subrange(w.len() - w2.len(), w.len() as int));
    } else {
        assert(w.subrange(w.len() - w.len(), w.len() as int) =~= w);
    }
}

proof fn lemma_evict_nonempty(lf: LengthFunction, cs: nat, co: nat, w: Seq<Seq<char>>, d_len: nat)
    requires
        w.len() >= 1,
        retention_friendly(lf, cs, co, w),
        2 * d_len <= cs,
    ensures
        evict(lf, cs, co, w, d_len).len() >= 1,
    decreases w.len(),
{
    let total = sum_measure(lf, w);
    if total > co || (total + d_len > cs && total > 0) {
        if w.len() == 1 {
            assert(w.drop_first() =~= Seq::<Seq<char>>::empty());
            assert(sum_measure(lf, Seq::<Seq<char>>::empty()) == 0);
            assert(total == measure(lf, w[0]));
            assert(w[0].len() >= 1 && measure(lf, w[0]) <= co && 2 * measure(lf, w[0]) <= cs);
            assert(total <= co);
            assert(total + d_len <= cs);
            assert(false);
        } else {
            assert forall|t: int|
                0 <= t < w.drop_first().len() implies ((#[trigger] w.drop_first()[t]).len() >= 1
                && measure(lf, w.drop_first()[t]) <= co && 2 * measure(lf, w.drop_first()[t])
                <= cs) by {
                assert(w.drop_first()[t] == w[t + 1]);
            }
            lemma_evict_nonempty(lf, cs, co, w.drop_first(), d_len);
        }
    }
}

proof fn lemma_retention_suffix(lf: LengthFunction, cs: nat, co: nat, w: Seq<Seq<char>>, w2: Seq<
    Seq<char>,
>)
    requires
        retention_friendly(lf, cs, co, w),
        w2.len() <= w.len(),
        w2 == w.subrange(w.len() - w2.len(), w.len() as int),
    ensures
        retention_friendly(lf, cs, co, w2),
{
    assert forall|t: int|
        0 <= t < w2.len() implies ((#[trigger] w2[t]).len() >= 1 && measure(lf, w2[t]) <= co && 2
        * measure(lf, w2[t]) <= cs) by {
        assert(w2[t] == w[w.len() - w2.len() + t]);
    }
}

proof fn lemma_retention_push(
    lf: LengthFunction,
    cs: nat,
    co: nat,
    ps: Seq<Seq<char>>,
    x: Seq<char>,
)
    requires
        retention_friendly(lf, cs, co, ps),
        x.len() >= 1,
        measure(lf, x) <= co,
        2 * measure(lf, x) <= cs,
    ensures
        retention_friendly(lf, cs, co, ps.push(x)),
{
    assert forall|t: int|
        0 <= t < ps.push(x).len() implies ((#[trigger] ps.push(x)[t]).len() >= 1 && measure(
        lf,
        ps.push(x)[t],
    ) <= co && 2 * measure(lf, ps.push(x)[t]) <= cs) by {
        if t < ps.len() {
            assert(ps.push(x)[t] == ps[t]);
        } else {
            assert(ps.push(x)[t] == x);
        }
    }
}

proof fn lemma_merge_overlap_rec(
    lf: LengthFunction,
    cs: nat,
    co: nat,
    splits: Seq<Seq<char>>,
    window: Seq<Seq<char>>,
)
    requires
        co >= 1,
        retention_friendly(lf, cs, co, splits),
        retention_friendly(lf, cs, co, window),
    ensures
        forall|i: int|
            0 <= i < merge_loop(lf, cs, co, splits, window).len() - 1 ==> #[trigger] chunks_overlap_within(lf, co, 
                merge_loop(lf, cs, co, splits, window)[i],
                merge_loop(lf, cs, co, splits, window)[i + 1],
            ),
        window.len() >= 1 ==> merge_loop(lf, cs, co, splits, window).len() >= 1 && is_prefix_of(
            concat_seqs(window),
            merge_loop(lf, cs, co, splits, window)[0],
        ),
    decreases splits.len(),
{
    let out = merge_loop(lf, cs, co, splits, window);
    if splits.len() == 0 {
        if window.len() >= 1 {
            lemma_concat_nonempty(window);
            assert(out == seq![concat_seqs(window)]);
            assert(out[0] == concat_seqs(window));
            assert(concat_seqs(window).subrange(0, concat_seqs(window).len() as int)
                =~= concat_seqs(window));
            assert(is_prefix_of(concat_seqs(window), out[0]));
        }
    } else {
        let d = splits[0];
        let d_len = measure(lf, d);
        let total = sum_measure(lf, window);
        assert(d.len() >= 1 && measure(lf, d) <= co && 2 * measure(lf, d) <= cs);
        assert forall|t: int|
            0 <= t < splits.drop_first().len() implies ((#[trigger] splits.drop_first()[t]).len()
            >= 1 && measure(lf, splits.drop_first()[t]) <= co && 2 * measure(
            lf,
            splits.drop_first()[t],
        ) <= cs) by {
            assert(splits.drop_first()[t] == splits[t + 1]);
        }
        if total + d_len > cs {
            // the window cannot be empty: one piece alone fits in a chunk
            if window.len() == 0 {
                assert(total == 0);
                assert(false);
            }
            lemma_concat_nonempty(window);
            let w2 = evict(lf, cs, co, window, d_len);
            lemma_evict_is_suffix(lf, cs, co, window, d_len);
            lemma_evict_nonempty(lf, cs, co, window, d_len);
            lemma_retention_suffix(lf, cs, co, window, w2);
            lemma_retention_push(lf, cs, co, w2, d);
            let rec = merge_loop(lf, cs, co, splits.drop_first(), w2.push(d));
            lemma_merge_overlap_rec(lf, cs, co, splits.drop_first(), w2.push(d));
            assert(out == seq![concat_seqs(window)] + rec);
            assert(out[0] == concat_seqs(window));
            // the retained tail is a non-empty suffix of the emitted chunk
            // and a prefix of the next one
            let shared = concat_seqs(w2);
            lemma_concat_nonempty(w2);
            lemma_evict_post(lf, cs, co, window, d_len);
            assert(sum_measure(lf, w2) <= co);
            let pre = window.subrange(0, window.len() - w2.len());
            assert(pre + w2 =~= window);
            lemma_concat_append(pre, w2);
            assert(concat_seqs(window) == concat_seqs(pre) + shared);
            assert(concat_seqs(window).subrange(
                concat_seqs(window).len() - shared.len(),
                concat_seqs(window).len() as int,
            ) =~= shared);
            assert(is_suffix_of(shared, out[0]));
            lemma_concat_push(w2, d);
            assert(concat_seqs(w2.push(d)) == shared + d);
            assert(rec.len() >= 1 && is_prefix_of(concat_seqs(w2.push(d)), rec[0]));
            assert(rec[0].subrange(0, shared.len() as int) =~= shared) by {
                assert(rec[0].subrange(0, concat_seqs(w2.push(d)).len() as int) == shared + d);
                assert forall|q: int| 0 <= q < shared.len() implies rec[0][q] == shared[q] by {
                    assert(rec[0].subrange(0, concat_seqs(w2.push(d)).len() as int)[q]
                        == (shared + d)[q]);
                }
            }
            assert(is_prefix_of(shared, rec[0]));
            assert(chunks_overlap_within(lf, co, out[0], rec[0]));
            assert(out[1] == rec[0]);
            assert forall|i: int|
                0 <= i < out.len() - 1 implies #[trigger] chunks_overlap_within(lf, co, out[i], out[i + 1]) by {
                if i == 0 {
                    assert(chunks_overlap_within(lf, co, out[0], out[1]));
                } else {
                    let q = i - 1;
                    assert(out[i] == rec[q]);
                    assert(out[i + 1] == rec[q + 1]);
                    assert(chunks_overlap_within(lf, co, rec[q], rec[q + 1]));
                }
            }
            assert(is_prefix_of(concat_seqs(window), out[0])) by {
                assert(concat_seqs(window).subrange(0, concat_seqs(window).len() as int)
                    =~= concat_seqs(window));
            }
        } else {
            lemma_retention_push(lf, cs, co, window, d);
            lemma_merge_overlap_rec(lf, cs, co, splits.drop_first(), window.push(d));
            let rec = merge_loop(lf, cs, co, splits.drop_first(), window.push(d));
            assert(out == rec);
            assert forall|i: int|
                0 <= i < out.len() - 1 implies #[trigger] chunks_overlap_within(lf, co, out[i], out[i + 1]) by {
                assert(out[i] == rec[i]);
                assert(out[i + 1] == rec[i + 1]);
                assert(chunks_overlap_within(lf, co, rec[i], rec[i + 1]));
            }
            if window.len() >= 1 {
                lemma_concat_push(window, d);
                assert(window.push(d).len() >= 1);
                assert(rec.len() >= 1 && is_prefix_of(concat_seqs(window.push(d)), rec[0]));
                let big = concat_seqs(window.push(d));
                let small = concat_seqs(window);
                assert(big == small + d);
                assert(out[0].subrange(0, small.len() as int) =~= small) by {
                    assert(rec[0].subrange(0, big.len() as int) == big);
                    assert forall|q: int| 0 <= q < small.len() implies out[0][q] == small[q] by {
                        assert(rec[0].subrange(0, big.len() as int)[q] == (small + d)[q]);
                    }
                }
                assert(is_prefix_of(small, out[0]));
            }
        }
    }
}

/// Overlap monotonicity, merge level: with a positive overlap budget
/// and pieces that permit retention — each piece fits in the overlap
/// budget and any two fit in a chunk together — every two consecutive
/// chunks of the merge share a non-empty stretch of text: the retained
/// trailing pieces, whose sizes sum to at most the overlap budget.
pub proof fn lemma_merge_overlap(lf: LengthFunction, cs: nat, co: nat, splits: Seq<Seq<char>>)
    requires
        co >= 1,
        retention_friendly(lf, cs, co, splits),
    ensures
        forall|i: int|
            0 <= i < merge_splits(lf, cs, co, splits).len() - 1 ==> #[trigger] chunks_overlap_within(lf, co, 
                merge_splits(lf, cs, co, splits)[i],
                merge_splits(lf, cs, co, splits)[i + 1],
            ),
{
    assert(retention_friendly(lf, cs, co, Seq::<Seq<char>>::empty()));
    lemma_merge_overlap_rec(lf, cs, co, splits, Seq::empty());
    let out = merge_splits(lf, cs, co, splits);
    assert forall|i: int|
        0 <= i < out.len() - 1 implies #[trigger] chunks_overlap_within(lf, co, out[i], out[i + 1]) by {
        assert(out[i] == merge_loop(lf, cs, co, splits, Seq::<Seq<char>>::empty())[i]);
        assert(out[i + 1] == merge_loop(lf, cs, co, splits, Seq::<Seq<char>>::empty())[i + 1]);
    }
}

/// Overlap monotonicity, descent level: when the pieces cut at the
/// selected separator level permit retention, every two consecutive
/// chunks of the descent share a non-empty stretch of text — the
/// retained trailing pieces — whose sizes sum to at most the overlap
/// budget, so the shared stretch approximates the requested overlap
/// from below (eviction removes whole pieces).
pub proof fn lemma_overlap_monotonicity(
    lf: LengthFunction,
    cs: nat,
    co: nat,
    text: Seq<char>,
    seps: Seq<Seq<char>>,
    i: int,
)
    requires
        0 <= i < seps.len(),
        co >= 1,
        co < cs,
        retention_friendly(lf, cs, co, split_incl(text, seps[select_from(trim_spec(text), seps, i)])),
    ensures
        forall|k: int|
            0 <= k < descend(lf, cs, co, text, seps, i).len() - 1 ==> #[trigger] chunks_overlap_within(lf, co, 
                descend(lf, cs, co, text, seps, i)[k],
                descend(lf, cs, co, text, seps, i)[k + 1],
            ),
{
    lemma_select_from_range(trim_spec(text), seps, i);
    let j = select_from(trim_spec(text), seps, i);
    let pieces = split_incl(text, seps[j]);
    let ni = next_start(seps, j);
    let out = descend(lf, cs, co, text, seps, i);
    assert(out == process_pieces(lf, cs, co, pieces, seps, ni, Seq::empty()));
    if pieces.len() == 0 {
        assert(process_pieces(lf, cs, co, pieces, seps, ni, Seq::<Seq<char>>::empty())
            == Seq::<Seq<char>>::empty());
    } else {
        assert forall|t: int| 0 <= t < pieces.len() implies measure(lf, #[trigger] pieces[t])
            < cs by {
            assert(pieces[t].len() >= 1 && measure(lf, pieces[t]) <= co);
        }
        lemma_process_all_small(lf, cs, co, pieces, seps, ni, Seq::empty());
        assert(Seq::<Seq<char>>::empty() + pieces =~= pieces);
        lemma_merge_overlap(lf, cs, co, pieces);
        assert forall|k: int|
            0 <= k < out.len() - 1 implies #[trigger] chunks_overlap_within(lf, co, out[k], out[k + 1]) by {
            assert(out[k] == merge_splits(lf, cs, co, pieces)[k]);
            assert(out[k + 1] == merge_splits(lf, cs, co, pieces)[k + 1]);
            assert(chunks_overlap_within(lf, co, merge_splits(lf, cs, co, pieces)[k], merge_splits(
                lf,
                cs,
                co,
                pieces,
            )[k + 1]));
        }
    }
}

} // verus!
