//! The recursive splitter: configuration, separator selection, recursive
//! descent and merge-with-overlap, each proved to return exactly what the
//! model in `model` describes.

use vstd::prelude::*;
use vstd::string::StrSliceExecFns;
use vstd::string::StringExecFns;
use crate::length::LengthFunction;
use crate::length::SplitterError;
use crate::length::lf_wf;
use crate::length::measure;
use crate::length::measure_exec;
use crate::model::descend;
use crate::model::evict;
use crate::model::flush_window;
use crate::model::merge_loop;
use crate::model::merge_splits;
use crate::model::lemma_sum_push;
use crate::model::next_start;
use crate::model::process_pieces;
use crate::model::select_from;
use crate::model::split_model;
use crate::model::trim_filter;
use crate::model::sum_measure;
use crate::model::lemma_descend_concat;
use crate::model::lemma_select_from_range;
use crate::model::lemma_trim_filter_props;
use crate::text::concat_seqs;
use crate::text::contains_sub;
use crate::text::find_first_match;
use crate::text::split_incl;
use crate::text::str_split_inclusive;
use crate::text::trim_spec;
use crate::text::trim_str;
use crate::text::lemma_concat_push;

verus! {

/// The character sequences of a sequence of owned strings.
pub open spec fn views_of_strings(ss: Seq<String>) -> Seq<Seq<char>> {
    Seq::new(ss.len(), |i: int| ss[i]@)
}

/// The character sequences of a sequence of string slices.
pub open spec fn views_of_strs(ss: Seq<&str>) -> Seq<Seq<char>> {
    Seq::new(ss.len(), |i: int| ss[i]@)
}

proof fn lemma_dv_strings(v: Vec<String>)
    ensures
        v.deep_view() == views_of_strings(v@),
{
    assert(v.deep_view() =~= views_of_strings(v@));
}

proof fn lemma_dv_strs(v: Vec<&str>)
    ensures
        v.deep_view() == views_of_strs(v@),
{
    assert(v.deep_view() =~= views_of_strs(v@));
}

proof fn lemma_views_push(ss: Seq<String>, x: String)
    ensures
        views_of_strings(ss.push(x)) == views_of_strings(ss).push(x@),
{
    assert(views_of_strings(ss.push(x)) =~= views_of_strings(ss).push(x@));
}

proof fn lemma_views_append(a: Seq<String>, b: Seq<String>)
    ensures
        views_of_strings(a + b) == views_of_strings(a) + views_of_strings(b),
{
    assert(views_of_strings(a + b) =~= views_of_strings(a) + views_of_strings(b));
}

/// The separator list used when the caller supplies none: paragraph,
/// line, ideographic full stop, sentence, word.
pub open spec fn default_separators() -> Seq<Seq<char>> {
    seq!["\n\n"@, "\n"@, "\u{3002}"@, ". "@, " "@]
}

/// What the constructor makes of the caller's separator list: the
/// default list when none is given, and the empty separator appended as
/// the final fallback when the list does not already end in it.
pub open spec fn normalized_separators(given: Seq<Seq<char>>) -> Seq<Seq<char>> {
    let base = if given.len() == 0 {
        default_separators()
    } else {
        given
    };
    if base.len() > 0 && base.last().len() == 0 {
        base
    } else {
        base.push(Seq::<char>::empty())
    }
}

/// A configured recursive splitter: a length function, an ordered
/// separator list ending in the empty fallback separator, a target chunk
/// size, a desired overlap, and the trimming switch.
pub struct RecursiveSplitter {
    length_fn: LengthFunction,
    separators: Vec<String>,
    chunk_size: usize,
    chunk_overlap: usize,
    trim: bool,
}

impl RecursiveSplitter {
    pub closed spec fn spec_length_fn(&self) -> LengthFunction {
        self.length_fn
    }

    pub closed spec fn spec_separators(&self) -> Seq<Seq<char>> {
        views_of_strings(self.separators@)
    }

    pub closed spec fn spec_chunk_size(&self) -> nat {
        self.chunk_size as nat
    }

    pub closed spec fn spec_chunk_overlap(&self) -> nat {
        self.chunk_overlap as nat
    }

    pub closed spec fn spec_trim(&self) -> bool {
        self.trim
    }

    /// Well-formed: at least one separator, the empty separator last (so
    /// the recursion always bottoms out), and the overlap strictly below
    /// the chunk size.
    pub open spec fn wf(&self) -> bool {
        &&& self.spec_separators().len() >= 1
        &&& self.spec_separators().last().len() == 0
        &&& self.spec_chunk_overlap() < self.spec_chunk_size()
        &&& lf_wf(self.spec_length_fn())
    }

    /// Builds a splitter. The separator list defaults when empty and
    /// ends in the empty separator, appended when not already there; an
    /// overlap that is not strictly smaller than the chunk size is
    /// rejected, so a constructed splitter always has a positive chunk
    /// size.
    pub fn new(
        chunk_size: usize,
        chunk_overlap: usize,
        length_fn: LengthFunction,
        separators: Vec<String>,
        trim: bool,
    ) -> (r: Result<RecursiveSplitter, SplitterError>)
        requires
            lf_wf(length_fn),
        ensures
            r is Err <==> chunk_overlap >= chunk_size,
            r matches Err(e) ==> e is OverlapTooLarge,
            r matches Ok(s) ==> ({
                &&& s.wf()
                &&& s.spec_length_fn() == length_fn
                &&& s.spec_separators() == normalized_separators(views_of_strings(separators@))
                &&& s.spec_chunk_size() == chunk_size as nat
                &&& s.spec_chunk_overlap() == chunk_overlap as nat
                &&& s.spec_trim() == trim
            }),
    {
        if chunk_overlap >= chunk_size {
            return Err(SplitterError::OverlapTooLarge);
        }
        let ghost given = views_of_strings(separators@);
        let mut seps = separators;
        if seps.len() == 0 {
            seps.push(String::from_str("\n\n"));
            seps.push(String::from_str("\n"));
            seps.push(String::from_str("\u{3002}"));
            seps.push(String::from_str(". "));
            seps.push(String::from_str(" "));
            proof {
                assert(views_of_strings(seps@) =~= default_separators());
            }
        }
        let ghost base = views_of_strings(seps@);
        let n = seps.len();
        let last: &String = &seps[n - 1];
        proof {
            assert(base[n - 1] == last@);
            assert(base.last() == last@);
        }
        if last.as_str().unicode_len() > 0 {
            seps.push(String::new());
            proof {
                lemma_views_push(seps@.drop_last(), seps@.last());
                assert(seps@.drop_last().push(seps@.last()) =~= seps@);
                assert(views_of_strings(seps@) =~= base.push(Seq::<char>::empty()));
                assert(views_of_strings(seps@) =~= normalized_separators(given));
            }
        } else {
            proof {
                assert(views_of_strings(seps@) =~= normalized_separators(given));
            }
        }
        Ok(
            RecursiveSplitter {
                length_fn,
                separators: seps,
                chunk_size,
                chunk_overlap,
                trim,
            },
        )
    }

    /// The size of `text` under this splitter's length function.
    pub fn count_tokens(&self, text: &str) -> (r: usize)
        requires
            lf_wf(self.spec_length_fn()),
        ensures
            r as nat == measure(self.spec_length_fn(), text@),
    {
        measure_exec(&self.length_fn, text)
    }
}

/// The pieces `lo..hi` joined into one string, in order.
fn join_range(splits: &Vec<&str>, lo: usize, hi: usize) -> (r: String)
    requires
        lo <= hi <= splits@.len(),
    ensures
        r@ == concat_seqs(views_of_strs(splits@).subrange(lo as int, hi as int)),
{
    let ghost dv = views_of_strs(splits@);
    let mut r = String::new();
    proof {
        assert(dv.subrange(lo as int, lo as int) =~= Seq::<Seq<char>>::empty());
    }
    let mut j: usize = lo;
    while j < hi
        invariant
            lo <= j <= hi <= splits@.len(),
            dv == views_of_strs(splits@),
            r@ == concat_seqs(dv.subrange(lo as int, j as int)),
        decreases hi - j,
    {
        let piece = splits[j];
        r.append(piece);
        proof {
            lemma_concat_push(dv.subrange(lo as int, j as int), dv[j as int]);
            assert(dv.subrange(lo as int, j + 1) =~= dv.subrange(lo as int, j as int).push(
                dv[j as int],
            ));
            assert(piece@ == dv[j as int]);
        }
        j = j + 1;
    }
    r
}

impl RecursiveSplitter {
    /// Merges one run of pieces `lo..hi` into chunks close to the chunk
    /// size, carrying an overlapping tail between consecutive chunks
    /// when the overlap is positive, and appends the chunks to `docs`.
    pub fn merge_splits_and_collect(
        &self,
        docs: &mut Vec<String>,
        splits: &Vec<&str>,
        lo: usize,
        hi: usize,
    )
        requires
            lo <= hi <= splits@.len(),
            lf_wf(self.spec_length_fn()),
        ensures
            final(docs).deep_view() == old(docs).deep_view() + merge_splits(
                self.spec_length_fn(),
                self.spec_chunk_size(),
                self.spec_chunk_overlap(),
                views_of_strs(splits@).subrange(lo as int, hi as int),
            ),
    {
        let ghost lf = self.spec_length_fn();
        let ghost cs = self.spec_chunk_size();
        let ghost co = self.spec_chunk_overlap();
        let ghost dv = views_of_strs(splits@);
        let ghost run = dv.subrange(lo as int, hi as int);
        let ghost mut emitted: Seq<Seq<char>> = Seq::empty();
        let mut win_lo: usize = lo;
        let mut k: usize = lo;
        let mut total: usize = 0;
        proof {
            assert(dv.subrange(lo as int, lo as int) =~= Seq::<Seq<char>>::empty());
            assert(Seq::<Seq<char>>::empty() + merge_loop(lf, cs, co, run, Seq::empty())
                =~= merge_loop(lf, cs, co, run, Seq::empty()));
            lemma_dv_strings(*docs);
            assert(old(docs).deep_view() + emitted =~= old(docs).deep_view());
        }
        while k < hi
            invariant
                lo <= win_lo <= k <= hi <= splits@.len(),
                dv == views_of_strs(splits@),
                run == dv.subrange(lo as int, hi as int),
                lf == self.spec_length_fn(),
                lf_wf(lf),
                cs == self.spec_chunk_size(),
                co == self.spec_chunk_overlap(),
                total as nat == sum_measure(lf, dv.subrange(win_lo as int, k as int)),
                merge_loop(lf, cs, co, run, Seq::empty()) == emitted + merge_loop(
                    lf,
                    cs,
                    co,
                    dv.subrange(k as int, hi as int),
                    dv.subrange(win_lo as int, k as int),
                ),
                docs.deep_view() == old(docs).deep_view() + emitted,
            decreases hi - k,
        {
            let ghost rest_k = dv.subrange(k as int, hi as int);
            let ghost win_k = dv.subrange(win_lo as int, k as int);
            let ghost em0 = emitted;
            let d = splits[k];
            let d_len = measure_exec(&self.length_fn, d);
            proof {
                assert(d@ == dv[k as int]);
                assert(rest_k[0] == dv[k as int]);
                assert(rest_k.drop_first() =~= dv.subrange(k + 1, hi as int));
            }
            let overflow = (total as u128) + (d_len as u128) > (self.chunk_size as u128);
            if overflow {
                if self.chunk_overlap == 0 {
                    let doc = join_range(splits, win_lo, k);
                    if doc.as_str().unicode_len() > 0 {
                        let ghost pre = docs@;
                        let ghost pre_dv = docs.deep_view();
                        docs.push(doc);
                        proof {
                            lemma_dv_strings(*docs);
                            lemma_views_push(pre, doc);
                            assert(docs.deep_view() =~= pre_dv.push(doc@));
                            emitted = emitted.push(concat_seqs(win_k));
                            assert(docs.deep_view() =~= old(docs).deep_view() + emitted);
                            assert(emitted =~= em0 + flush_window(win_k));
                        }
                    } else {
                        proof {
                            assert(flush_window(win_k) =~= Seq::<Seq<char>>::empty());
                            assert(emitted =~= em0 + flush_window(win_k));
                        }
                    }
                    win_lo = k;
                    total = 0;
                    proof {
                        assert(dv.subrange(k as int, k as int) =~= Seq::<Seq<char>>::empty());
                    }
                } else {
                    if win_lo < k {
                        let doc = join_range(splits, win_lo, k);
                        if doc.as_str().unicode_len() > 0 {
                            let ghost pre = docs@;
                            let ghost pre_dv = docs.deep_view();
                            docs.push(doc);
                            proof {
                                lemma_dv_strings(*docs);
                                lemma_views_push(pre, doc);
                                assert(docs.deep_view() =~= pre_dv.push(doc@));
                                emitted = emitted.push(concat_seqs(win_k));
                                assert(docs.deep_view() =~= old(docs).deep_view() + emitted);
                                assert(emitted =~= em0 + flush_window(win_k));
                            }
                        } else {
                            proof {
                                assert(flush_window(win_k) =~= Seq::<Seq<char>>::empty());
                                assert(emitted =~= em0 + flush_window(win_k));
                            }
                        }
                    } else {
                        proof {
                            assert(win_k =~= Seq::<Seq<char>>::empty());
                            assert(flush_window(win_k) =~= Seq::<Seq<char>>::empty());
                            assert(emitted =~= em0 + flush_window(win_k));
                        }
                    }
                    let ghost w_entry = dv.subrange(win_lo as int, k as int);
                    while total > self.chunk_overlap || ((total as u128) + (d_len as u128) > (
                    self.chunk_size as u128) && total > 0)
                        invariant
                            lo <= win_lo <= k < splits@.len(),
                            dv == views_of_strs(splits@),
                            lf == self.spec_length_fn(),
                            lf_wf(lf),
                            cs == self.spec_chunk_size(),
                            co == self.spec_chunk_overlap(),
                            d_len as nat == measure(lf, dv[k as int]),
                            total as nat == sum_measure(lf, dv.subrange(win_lo as int, k as int)),
                            evict(lf, cs, co, w_entry, d_len as nat) == evict(
                                lf,
                                cs,
                                co,
                                dv.subrange(win_lo as int, k as int),
                                d_len as nat,
                            ),
                        decreases k - win_lo,
                    {
                        let ghost w = dv.subrange(win_lo as int, k as int);
                        proof {
                            if win_lo == k {
                                assert(w =~= Seq::<Seq<char>>::empty());
                                assert(sum_measure(lf, w) == 0);
                                assert(false);
                            }
                            assert(w[0] == dv[win_lo as int]);
                            assert(w.drop_first() =~= dv.subrange(win_lo + 1, k as int));
                        }
                        let popped = splits[win_lo];
                        let p_len = measure_exec(&self.length_fn, popped);
                        proof {
                            assert(popped@ == dv[win_lo as int]);
                            assert(sum_measure(lf, w) == measure(lf, w[0]) + sum_measure(
                                lf,
                                w.drop_first(),
                            ));
                            assert(evict(lf, cs, co, w, d_len as nat) == evict(
                                lf,
                                cs,
                                co,
                                w.drop_first(),
                                d_len as nat,
                            ));
                        }
                        total = total - p_len;
                        win_lo = win_lo + 1;
                    }
                    proof {
                        let w_now = dv.subrange(win_lo as int, k as int);
                        assert(evict(lf, cs, co, w_now, d_len as nat) == w_now);
                        assert(evict(lf, cs, co, win_k, d_len as nat) == w_now);
                    }
                }
            }
            let ghost w_new = dv.subrange(win_lo as int, k as int);
            proof {
                // appending the piece never overflows the running total
                if overflow {
                    if co == 0 {
                        assert(total == 0);
                    } else {
                        assert(sum_measure(lf, w_new) + d_len as nat <= cs || sum_measure(
                            lf,
                            w_new,
                        ) == 0);
                    }
                } else {
                    assert(total as nat + d_len as nat <= cs);
                }
                assert(total as nat + d_len as nat <= usize::MAX as nat);
            }
            total = total + d_len;
            proof {
                lemma_sum_push(lf, w_new, dv[k as int]);
                assert(dv.subrange(win_lo as int, k + 1) =~= w_new.push(dv[k as int]));
                // one step of the model
                if overflow {
                    if co == 0 {
                        assert(w_new =~= Seq::<Seq<char>>::empty());
                        assert(w_new.push(dv[k as int]) =~= seq![dv[k as int]]);
                        assert(merge_loop(lf, cs, co, rest_k, win_k) == flush_window(win_k)
                            + merge_loop(lf, cs, co, rest_k.drop_first(), seq![dv[k as int]]));
                    } else {
                        assert(merge_loop(lf, cs, co, rest_k, win_k) == flush_window(win_k)
                            + merge_loop(
                            lf,
                            cs,
                            co,
                            rest_k.drop_first(),
                            evict(lf, cs, co, win_k, d_len as nat).push(dv[k as int]),
                        ));
                    }
                    assert((em0 + flush_window(win_k)) + merge_loop(
                        lf,
                        cs,
                        co,
                        rest_k.drop_first(),
                        w_new.push(dv[k as int]),
                    ) =~= em0 + (flush_window(win_k) + merge_loop(
                        lf,
                        cs,
                        co,
                        rest_k.drop_first(),
                        w_new.push(dv[k as int]),
                    )));
                } else {
                    assert(merge_loop(lf, cs, co, rest_k, win_k) == merge_loop(
                        lf,
                        cs,
                        co,
                        rest_k.drop_first(),
                        win_k.push(dv[k as int]),
                    ));
                }
            }
            k = k + 1;
        }
        let ghost win_k = dv.subrange(win_lo as int, k as int);
        let ghost em0 = emitted;
        proof {
            assert(dv.subrange(k as int, hi as int) =~= Seq::<Seq<char>>::empty());
            assert(merge_loop(lf, cs, co, dv.subrange(k as int, hi as int), win_k) == flush_window(
                win_k,
            ));
        }
        let doc = join_range(splits, win_lo, k);
        if doc.as_str().unicode_len() > 0 {
            let ghost pre = docs@;
            let ghost pre_dv = docs.deep_view();
            docs.push(doc);
            proof {
                lemma_dv_strings(*docs);
                lemma_views_push(pre, doc);
                assert(docs.deep_view() =~= pre_dv.push(doc@));
                emitted = emitted.push(concat_seqs(win_k));
                assert(docs.deep_view() =~= old(docs).deep_view() + emitted);
                assert(emitted =~= em0 + flush_window(win_k));
            }
        } else {
            proof {
                assert(flush_window(win_k) =~= Seq::<Seq<char>>::empty());
                assert(emitted =~= em0 + flush_window(win_k));
            }
        }
        proof {
            assert(docs.deep_view() =~= old(docs).deep_view() + merge_splits(lf, cs, co, run));
        }
    }
}

impl RecursiveSplitter {
    /// One level of recursive descent over `text`, with the separator
    /// candidates starting at index `start` of this splitter's list.
    pub fn do_split_text(&self, text: &str, start: usize) -> (r: Vec<String>)
        requires
            start < self.spec_separators().len(),
            lf_wf(self.spec_length_fn()),
        ensures
            r.deep_view() == descend(
                self.spec_length_fn(),
                self.spec_chunk_size(),
                self.spec_chunk_overlap(),
                text@,
                self.spec_separators(),
                start as int,
            ),
        decreases self.spec_separators().len() - start,
    {
        let ghost lf = self.spec_length_fn();
        let ghost cs = self.spec_chunk_size();
        let ghost co = self.spec_chunk_overlap();
        let ghost seps_dv = self.spec_separators();
        let nseps = self.separators.len();
        proof {
            assert(seps_dv.len() == nseps);
        }
        let trimmed = trim_str(text);
        let mut j: usize = start;
        let mut found = false;
        let mut selected: usize = nseps - 1;
        let mut next_i: usize = nseps;
        while j < nseps && !found
            invariant
                start <= j <= nseps,
                nseps == seps_dv.len(),
                seps_dv == self.spec_separators(),
                nseps == self.separators@.len(),
                trimmed@ == trim_spec(text@),
                !found ==> select_from(trim_spec(text@), seps_dv, start as int) == select_from(
                    trim_spec(text@),
                    seps_dv,
                    j as int,
                ),
                !found ==> selected == nseps - 1 && next_i == nseps,
                found ==> ({
                    &&& selected < nseps
                    &&& selected as int == select_from(trim_spec(text@), seps_dv, start as int)
                    &&& next_i as int == next_start(seps_dv, selected as int)
                }),
            decreases nseps - j, (if found { 0int } else { 1int }),
        {
            let s: &String = &self.separators[j];
            proof {
                assert(seps_dv[j as int] == s@);
            }
            if s.as_str().unicode_len() == 0 {
                selected = j;
                next_i = nseps;
                found = true;
                proof {
                    assert(select_from(trim_spec(text@), seps_dv, j as int) == j as int);
                }
            } else {
                match find_first_match(trimmed, s.as_str()) {
                    Some(_) => {
                        selected = j;
                        next_i = j + 1;
                        found = true;
                        proof {
                            assert(contains_sub(trim_spec(text@), seps_dv[j as int]));
                            assert(select_from(trim_spec(text@), seps_dv, j as int) == j as int);
                            assert(next_start(seps_dv, j as int) == j + 1);
                        }
                    },
                    None => {
                        proof {
                            assert(!contains_sub(trim_spec(text@), seps_dv[j as int]));
                            assert(select_from(trim_spec(text@), seps_dv, j as int) == select_from(
                                trim_spec(text@),
                                seps_dv,
                                j + 1,
                            ));
                        }
                        j = j + 1;
                    },
                }
            }
        }
        proof {
            if !found {
                assert(j == nseps);
                assert(select_from(trim_spec(text@), seps_dv, nseps as int) == nseps - 1);
                assert(selected as int == select_from(trim_spec(text@), seps_dv, start as int));
                assert(next_start(seps_dv, selected as int) == nseps as int || next_start(
                    seps_dv,
                    selected as int,
                ) == selected + 1);
                assert(next_i as int == next_start(seps_dv, selected as int));
            }
        }
        proof {
            lemma_select_from_range(trim_spec(text@), seps_dv, start as int);
        }
        let ghost jj = selected as int;
        let ghost ni = next_i as int;
        let sep_string: &String = &self.separators[selected];
        let splits: Vec<&str> = str_split_inclusive(text, sep_string.as_str());
        let ghost pdv = views_of_strs(splits@);
        let ghost n = splits@.len() as int;
        proof {
            lemma_dv_strs(splits);
            assert(seps_dv[jj] == sep_string@);
            assert(pdv == split_incl(text@, seps_dv[jj]));
        }
        let ghost target = descend(lf, cs, co, text@, seps_dv, start as int);
        proof {
            assert(target == process_pieces(lf, cs, co, pdv, seps_dv, ni, Seq::empty()));
        }
        let mut final_chunks: Vec<String> = Vec::new();
        let mut g_lo: usize = 0;
        let mut k: usize = 0;
        proof {
            lemma_dv_strings(final_chunks);
            assert(final_chunks.deep_view() =~= Seq::<Seq<char>>::empty());
            assert(pdv.subrange(0, n) =~= pdv);
            assert(pdv.subrange(0, 0) =~= Seq::<Seq<char>>::empty());
            assert(Seq::<Seq<char>>::empty() + process_pieces(lf, cs, co, pdv, seps_dv, ni, Seq::empty())
                =~= process_pieces(lf, cs, co, pdv, seps_dv, ni, Seq::empty()));
        }
        while k < splits.len()
            invariant
                0 <= g_lo <= k <= splits@.len(),
                n == splits@.len(),
                pdv == views_of_strs(splits@),
                lf == self.spec_length_fn(),
                lf_wf(lf),
                cs == self.spec_chunk_size(),
                co == self.spec_chunk_overlap(),
                seps_dv == self.spec_separators(),
                nseps == seps_dv.len(),
                start < nseps,
                ni == next_i as int,
                ni == next_start(seps_dv, jj),
                start <= jj < nseps,
                target == final_chunks.deep_view() + process_pieces(
                    lf,
                    cs,
                    co,
                    pdv.subrange(k as int, n),
                    seps_dv,
                    ni,
                    pdv.subrange(g_lo as int, k as int),
                ),
            decreases n - k,
        {
            let ghost rest_k = pdv.subrange(k as int, n);
            let ghost pending = pdv.subrange(g_lo as int, k as int);
            let d = splits[k];
            let d_len = measure_exec(&self.length_fn, d);
            proof {
                assert(d@ == pdv[k as int]);
                assert(rest_k[0] == pdv[k as int]);
                assert(rest_k.drop_first() =~= pdv.subrange(k + 1, n));
            }
            if d_len < self.chunk_size {
                proof {
                    assert(pdv.subrange(g_lo as int, k + 1) =~= pending.push(pdv[k as int]));
                    assert(process_pieces(lf, cs, co, rest_k, seps_dv, ni, pending)
                        == process_pieces(
                        lf,
                        cs,
                        co,
                        rest_k.drop_first(),
                        seps_dv,
                        ni,
                        pending.push(pdv[k as int]),
                    ));
                }
                k = k + 1;
            } else {
                let ghost flushed = if pending.len() > 0 {
                    merge_splits(lf, cs, co, pending)
                } else {
                    Seq::<Seq<char>>::empty()
                };
                let ghost mid = if ni >= seps_dv.len() {
                    seq![pdv[k as int]]
                } else {
                    descend(lf, cs, co, pdv[k as int], seps_dv, ni)
                };
                proof {
                    assert(process_pieces(lf, cs, co, rest_k, seps_dv, ni, pending) == flushed
                        + mid + process_pieces(
                        lf,
                        cs,
                        co,
                        rest_k.drop_first(),
                        seps_dv,
                        ni,
                        Seq::empty(),
                    ));
                }
                let ghost fc0 = final_chunks.deep_view();
                if g_lo < k {
                    self.merge_splits_and_collect(&mut final_chunks, &splits, g_lo, k);
                } else {
                    proof {
                        assert(pending.len() == 0);
                        assert(flushed =~= Seq::<Seq<char>>::empty());
                    }
                }
                proof {
                    assert(final_chunks.deep_view() =~= fc0 + flushed);
                }
                let ghost fc1 = final_chunks.deep_view();
                if next_i >= nseps {
                    let ghost pre = final_chunks@;
                    let ghost pre_dv = final_chunks.deep_view();
                    final_chunks.push(String::from_str(d));
                    proof {
                        lemma_dv_strings(final_chunks);
                        lemma_views_push(pre, final_chunks@.last());
                        assert(final_chunks.deep_view() =~= pre_dv.push(d@));
                        assert(final_chunks.deep_view() =~= fc1 + mid);
                    }
                } else {
                    let mut sub_chunks = self.do_split_text(d, next_i);
                    proof {
                        assert(sub_chunks.deep_view() == mid);
                    }
                    let ghost pre = final_chunks@;
                    let ghost pre_sub = sub_chunks@;
                    final_chunks.append(&mut sub_chunks);
                    proof {
                        lemma_views_append(pre, pre_sub);
                        lemma_dv_strings(final_chunks);
                        assert(views_of_strings(pre) =~= fc1);
                        assert(views_of_strings(pre_sub) =~= mid);
                        assert(final_chunks.deep_view() =~= fc1 + mid);
                    }
                }
                proof {
                    assert(pdv.subrange(k + 1, k + 1) =~= Seq::<Seq<char>>::empty());
                    assert(final_chunks.deep_view() =~= (fc0 + flushed) + mid);
                    assert((fc0 + flushed) + mid + process_pieces(
                        lf,
                        cs,
                        co,
                        rest_k.drop_first(),
                        seps_dv,
                        ni,
                        Seq::empty(),
                    ) =~= fc0 + (flushed + mid + process_pieces(
                        lf,
                        cs,
                        co,
                        rest_k.drop_first(),
                        seps_dv,
                        ni,
                        Seq::empty(),
                    )));
                }
                g_lo = k + 1;
                k = k + 1;
            }
        }
        let ghost pending = pdv.subrange(g_lo as int, k as int);
        proof {
            assert(pdv.subrange(k as int, n) =~= Seq::<Seq<char>>::empty());
        }
        if g_lo < splits.len() {
            self.merge_splits_and_collect(&mut final_chunks, &splits, g_lo, splits.len());
            proof {
                assert(process_pieces(lf, cs, co, pdv.subrange(k as int, n), seps_dv, ni, pending)
                    == merge_splits(lf, cs, co, pending));
            }
        } else {
            proof {
                assert(pending.len() == 0);
                assert(process_pieces(lf, cs, co, pdv.subrange(k as int, n), seps_dv, ni, pending)
                    =~= Seq::<Seq<char>>::empty());
                assert(final_chunks.deep_view() + Seq::<Seq<char>>::empty() =~= final_chunks.deep_view());
            }
        }
        final_chunks
    }

    /// Splits `text` into bounded-size chunks: the full recursive
    /// descent, followed, when trimming is on, by trimming every chunk
    /// and dropping the ones that become empty. With no overlap and no
    /// trimming the chunks concatenate back to `text` exactly.
    pub fn split_text(&self, text: &str) -> (r: Vec<String>)
        requires
            self.wf(),
        ensures
            r.deep_view() == split_model(
                self.spec_length_fn(),
                self.spec_chunk_size(),
                self.spec_chunk_overlap(),
                self.spec_trim(),
                self.spec_separators(),
                text@,
            ),
            self.spec_chunk_overlap() == 0 && !self.spec_trim() ==> concat_seqs(r.deep_view())
                == text@,
            self.spec_trim() ==> forall|k: int|
                0 <= k < r.deep_view().len() ==> (#[trigger] r.deep_view()[k]).len() > 0
                    && trim_spec(r.deep_view()[k]) == r.deep_view()[k],
    {
        let ghost lf = self.spec_length_fn();
        let ghost cs = self.spec_chunk_size();
        let ghost co = self.spec_chunk_overlap();
        let chunks = self.do_split_text(text, 0);
        proof {
            if co == 0 {
                lemma_descend_concat(lf, cs, text@, self.spec_separators(), 0);
            }
        }
        if !self.trim {
            return chunks;
        }
        let ghost cdv = chunks.deep_view();
        let mut out: Vec<String> = Vec::new();
        let mut i: usize = 0;
        proof {
            lemma_dv_strings(out);
            assert(out.deep_view() =~= Seq::<Seq<char>>::empty());
            assert(cdv.subrange(0, cdv.len() as int) =~= cdv);
            assert(Seq::<Seq<char>>::empty() + trim_filter(cdv) =~= trim_filter(cdv));
        }
        while i < chunks.len()
            invariant
                0 <= i <= chunks@.len(),
                cdv == chunks.deep_view(),
                cdv.len() == chunks@.len(),
                trim_filter(cdv) == out.deep_view() + trim_filter(
                    cdv.subrange(i as int, cdv.len() as int),
                ),
            decreases chunks@.len() - i,
        {
            let ghost rest = cdv.subrange(i as int, cdv.len() as int);
            proof {
                assert(rest[0] == cdv[i as int]);
                assert(rest.drop_first() =~= cdv.subrange(i + 1, cdv.len() as int));
                assert(chunks@[i as int]@ == cdv[i as int]);
            }
            let c: &String = &chunks[i];
            let t = trim_str(c.as_str());
            if t.unicode_len() > 0 {
                let ghost pre = out@;
                let ghost pre_dv = out.deep_view();
                out.push(String::from_str(t));
                proof {
                    lemma_dv_strings(out);
                    lemma_views_push(pre, out@.last());
                    assert(out.deep_view() =~= pre_dv.push(t@));
                    assert(pre_dv.push(t@) =~= pre_dv + seq![t@]);
                    assert(trim_filter(rest) == seq![trim_spec(cdv[i as int])] + trim_filter(
                        rest.drop_first(),
                    ));
                    assert((pre_dv + seq![t@]) + trim_filter(rest.drop_first()) =~= pre_dv + (seq![
                        t@,
                    ] + trim_filter(rest.drop_first())));
                }
            } else {
                proof {
                    assert(trim_filter(rest) == trim_filter(rest.drop_first()));
                }
            }
            i = i + 1;
        }
        proof {
            assert(cdv.subrange(i as int, cdv.len() as int) =~= Seq::<Seq<char>>::empty());
            assert(trim_filter(Seq::<Seq<char>>::empty()) =~= Seq::<Seq<char>>::empty());
            assert(out.deep_view() + Seq::<Seq<char>>::empty() =~= out.deep_view());
            lemma_trim_filter_props(cdv);
            assert forall|k: int|
                0 <= k < out.deep_view().len() implies (#[trigger] out.deep_view()[k]).len() > 0
                && trim_spec(out.deep_view()[k]) == out.deep_view()[k] by {
                assert(out.deep_view()[k] == trim_filter(cdv)[k]);
            }
        }
        out
    }
}

} // verus!
