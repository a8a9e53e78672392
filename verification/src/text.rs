//! Character-level groundwork for the splitter: whitespace trimming,
//! substring search, and separator-inclusive splitting, each with a
//! sequence-level specification.

use vstd::prelude::*;
use vstd::string::StrSliceExecFns;

verus! {

/// Names the Unicode whitespace property of a character, as
/// `char::is_whitespace` decides it.
pub uninterp spec fn is_whitespace_char(c: char) -> bool;

/// Relies on `char::is_whitespace` of std: whether the character has the
/// Unicode whitespace property; a pure function of the character.
#[verifier::external_body]
pub fn is_whitespace(c: char) -> (r: bool)
    ensures
        r == is_whitespace_char(c),
{
    c.is_whitespace()
}

/// The sequence with its leading whitespace characters removed.
pub open spec fn trim_start_spec(s: Seq<char>) -> Seq<char>
    decreases s.len(),
{
    if s.len() > 0 && is_whitespace_char(s[0]) {
        trim_start_spec(s.drop_first())
    } else {
        s
    }
}

/// The sequence with its trailing whitespace characters removed.
pub open spec fn trim_end_spec(s: Seq<char>) -> Seq<char>
    decreases s.len(),
{
    if s.len() > 0 && is_whitespace_char(s.last()) {
        trim_end_spec(s.drop_last())
    } else {
        s
    }
}

/// The sequence with leading and trailing whitespace removed, as
/// `str::trim` produces it.
pub open spec fn trim_spec(s: Seq<char>) -> Seq<char> {
    trim_end_spec(trim_start_spec(s))
}

proof fn lemma_trim_start_char(s: Seq<char>, k: int)
    requires
        0 <= k <= s.len(),
        forall|j: int| 0 <= j < k ==> is_whitespace_char(s[j]),
        k < s.len() ==> !is_whitespace_char(s[k]),
    ensures
        trim_start_spec(s) == s.subrange(k, s.len() as int),
    decreases k,
{
    if k == 0 {
        assert(s.subrange(0, s.len() as int) =~= s);
    } else {
        assert(is_whitespace_char(s[0]));
        lemma_trim_start_char(s.drop_first(), k - 1);
        assert(s.drop_first().subrange(k - 1, s.drop_first().len() as int) =~= s.subrange(
            k,
            s.len() as int,
        ));
    }
}

proof fn lemma_trim_end_char(s: Seq<char>, k: int)
    requires
        0 <= k <= s.len(),
        forall|j: int| k <= j < s.len() ==> is_whitespace_char(s[j]),
        k > 0 ==> !is_whitespace_char(s[k - 1]),
    ensures
        trim_end_spec(s) == s.subrange(0, k),
    decreases s.len() - k,
{
    if k == s.len() {
        assert(s.subrange(0, s.len() as int) =~= s);
    } else {
        assert(is_whitespace_char(s.last()));
        lemma_trim_end_char(s.drop_last(), k);
        assert(s.drop_last().subrange(0, k) =~= s.subrange(0, k));
    }
}

/// The concatenation of a sequence of character sequences, in order.
pub open spec fn concat_seqs(ss: Seq<Seq<char>>) -> Seq<char>
    decreases ss.len(),
{
    if ss.len() == 0 {
        Seq::empty()
    } else {
        ss[0] + concat_seqs(ss.drop_first())
    }
}

pub proof fn lemma_concat_push(ss: Seq<Seq<char>>, x: Seq<char>)
    ensures
        concat_seqs(ss.push(x)) == concat_seqs(ss) + x,
    decreases ss.len(),
{
    if ss.len() == 0 {
        assert(ss.push(x).drop_first() =~= Seq::<Seq<char>>::empty());
        assert(ss.push(x)[0] == x);
        assert(concat_seqs(ss.push(x)) == x + concat_seqs(Seq::<Seq<char>>::empty()));
        assert(concat_seqs(ss.push(x)) =~= concat_seqs(ss) + x);
    } else {
        assert(ss.push(x).drop_first() =~= ss.drop_first().push(x));
        lemma_concat_push(ss.drop_first(), x);
        assert(concat_seqs(ss.push(x)) =~= concat_seqs(ss) + x);
    }
}

pub proof fn lemma_concat_append(a: Seq<Seq<char>>, b: Seq<Seq<char>>)
    ensures
        concat_seqs(a + b) == concat_seqs(a) + concat_seqs(b),
    decreases a.len(),
{
    if a.len() == 0 {
        assert(a + b =~= b);
        assert(concat_seqs(a + b) =~= concat_seqs(a) + concat_seqs(b));
    } else {
        assert((a + b).drop_first() =~= a.drop_first() + b);
        lemma_concat_append(a.drop_first(), b);
        assert(concat_seqs(a + b) =~= concat_seqs(a) + concat_seqs(b));
    }
}

/// The separator occurs in `t` starting at position `i`.
pub open spec fn match_at(t: Seq<char>, sep: Seq<char>, i: int) -> bool {
    0 <= i && i + sep.len() <= t.len() && t.subrange(i, i + sep.len()) == sep
}

/// The position of the leftmost occurrence of `sep` in `t`, if any.
pub open spec fn find_first(t: Seq<char>, sep: Seq<char>) -> Option<int>
    decreases t.len(),
{
    if sep.len() > t.len() {
        None
    } else if sep.len() == 0 {
        Some(0)
    } else if t.subrange(0, sep.len() as int) == sep {
        Some(0)
    } else {
        match find_first(t.drop_first(), sep) {
            Some(i) => Some(i + 1),
            None => None,
        }
    }
}

/// The separator occurs somewhere in `t`.
pub open spec fn contains_sub(t: Seq<char>, sep: Seq<char>) -> bool {
    find_first(t, sep) is Some
}

/// `find_first` returns exactly the leftmost match position.
pub proof fn lemma_find_first_char(t: Seq<char>, sep: Seq<char>)
    ensures
        match find_first(t, sep) {
            Some(i) => match_at(t, sep, i) && forall|j: int| 0 <= j < i ==> !match_at(t, sep, j),
            None => forall|j: int| !match_at(t, sep, j),
        },
    decreases t.len(),
{
    if sep.len() > t.len() {
        assert(forall|j: int| !match_at(t, sep, j));
    } else if sep.len() == 0 {
        assert(t.subrange(0, 0) =~= sep);
        assert(match_at(t, sep, 0));
    } else if t.subrange(0, sep.len() as int) == sep {
        assert(match_at(t, sep, 0));
    } else {
        lemma_find_first_char(t.drop_first(), sep);
        assert forall|j: int| 1 <= j implies match_at(t, sep, j) == match_at(
            t.drop_first(),
            sep,
            j - 1,
        ) by {
            if 0 <= j - 1 && j - 1 + sep.len() <= t.drop_first().len() {
                assert(t.drop_first().subrange(j - 1, j - 1 + sep.len()) =~= t.subrange(
                    j,
                    j + sep.len(),
                ));
            }
        }
        assert(!match_at(t, sep, 0));
    }
}

/// The pieces of `t` cut immediately after each leftmost occurrence of
/// `sep`; the empty separator cuts after every character. No piece is
/// empty, and the pieces concatenate back to `t`.
pub open spec fn split_incl(t: Seq<char>, sep: Seq<char>) -> Seq<Seq<char>>
    decreases t.len(),
{
    if t.len() == 0 {
        Seq::empty()
    } else if sep.len() == 0 {
        Seq::new(t.len(), |i: int| seq![t[i]])
    } else {
        match find_first(t, sep) {
            Some(i) => if 0 <= i && i + sep.len() <= t.len() {
                seq![t.subrange(0, i + sep.len())] + split_incl(
                    t.subrange(i + sep.len(), t.len() as int),
                    sep,
                )
            } else {
                seq![t]
            },
            None => seq![t],
        }
    }
}

/// Splitting never loses or reorders characters: the pieces concatenate
/// back to the input text exactly.
pub proof fn lemma_split_incl_concat(t: Seq<char>, sep: Seq<char>)
    ensures
        concat_seqs(split_incl(t, sep)) == t,
    decreases t.len(),
{
    if t.len() == 0 {
        assert(concat_seqs(split_incl(t, sep)) =~= t);
    } else if sep.len() == 0 {
        let ss = split_incl(t, sep);
        assert(ss.drop_first() =~= split_incl(t.drop_first(), sep));
        lemma_split_incl_concat(t.drop_first(), sep);
        assert(concat_seqs(ss) =~= t);
    } else {
        match find_first(t, sep) {
            Some(i) => {
                proof_find_first_bounds(t, sep);
                let cut = i + sep.len();
                let rest = t.subrange(cut as int, t.len() as int);
                lemma_split_incl_concat(rest, sep);
                let ss = split_incl(t, sep);
                assert(ss.drop_first() =~= split_incl(rest, sep));
                assert(concat_seqs(ss) =~= t.subrange(0, cut as int) + rest);
                assert(t.subrange(0, cut as int) + rest =~= t);
            },
            None => {
                let ss = split_incl(t, sep);
                assert(ss[0] == t);
                assert(ss.drop_first() =~= Seq::<Seq<char>>::empty());
                assert(concat_seqs(ss) == t + concat_seqs(Seq::<Seq<char>>::empty()));
                assert(concat_seqs(ss) =~= t);
            },
        }
    }
}

/// A found match lies inside the text.
pub proof fn proof_find_first_bounds(t: Seq<char>, sep: Seq<char>)
    ensures
        match find_first(t, sep) {
            Some(i) => 0 <= i && i + sep.len() <= t.len(),
            None => true,
        },
    decreases t.len(),
{
    if sep.len() > t.len() {
    } else if sep.len() == 0 {
    } else if t.subrange(0, sep.len() as int) == sep {
    } else {
        proof_find_first_bounds(t.drop_first(), sep);
    }
}

/// No piece of a split is empty.
pub proof fn lemma_split_incl_nonempty(t: Seq<char>, sep: Seq<char>)
    ensures
        forall|k: int|
            0 <= k < split_incl(t, sep).len() ==> #[trigger] split_incl(t, sep)[k].len() >= 1,
    decreases t.len(),
{
    if t.len() == 0 {
    } else if sep.len() == 0 {
    } else {
        match find_first(t, sep) {
            Some(i) => {
                proof_find_first_bounds(t, sep);
                let cut = i + sep.len();
                lemma_split_incl_nonempty(t.subrange(cut as int, t.len() as int), sep);
                assert(split_incl(t, sep).drop_first() =~= split_incl(
                    t.subrange(cut as int, t.len() as int),
                    sep,
                ));
                assert forall|k: int| 0 <= k < split_incl(t, sep).len() implies #[trigger] split_incl(
                    t,
                    sep,
                )[k].len() >= 1 by {
                    if k >= 1 {
                        assert(split_incl(t, sep)[k] == split_incl(t, sep).drop_first()[k - 1]);
                    }
                }
            },
            None => {},
        }
    }
}

/// Character-by-character equality of two strings.
pub fn str_eq(a: &str, b: &str) -> (r: bool)
    ensures
        r == (a@ == b@),
{
    let n = a.unicode_len();
    let m = b.unicode_len();
    if n != m {
        proof {
            assert(a@ != b@);
        }
        return false;
    }
    let mut i: usize = 0;
    while i < n
        invariant
            0 <= i <= n,
            n == a@.len(),
            n == b@.len(),
            forall|j: int| 0 <= j < i ==> a@[j] == b@[j],
        decreases n - i,
    {
        if a.get_char(i) != b.get_char(i) {
            proof {
                assert(a@ != b@);
            }
            return false;
        }
        i = i + 1;
    }
    proof {
        assert(a@ =~= b@);
    }
    true
}

/// The position of the leftmost occurrence of `sep` in `t`, scanning
/// character by character.
pub fn find_first_match(t: &str, sep: &str) -> (r: Option<usize>)
    requires
        sep@.len() >= 1,
    ensures
        r matches Some(i) ==> find_first(t@, sep@) == Some(i as int),
        r is None ==> find_first(t@, sep@) is None,
{
    let n = t.unicode_len();
    let m = sep.unicode_len();
    if m > n {
        proof {
            lemma_find_first_char(t@, sep@);
        }
        return None;
    }
    let mut i: usize = 0;
    while i <= n - m
        invariant
            0 <= i <= n - m + 1,
            m >= 1,
            m <= n,
            n == t@.len(),
            m == sep@.len(),
            forall|j: int| 0 <= j < i ==> !match_at(t@, sep@, j),
        decreases n - i,
    {
        let mut k: usize = 0;
        let mut all_eq = true;
        while k < m
            invariant
                0 <= k <= m,
                i + m <= n,
                n == t@.len(),
                m == sep@.len(),
                all_eq <==> t@.subrange(i as int, i + k) =~= sep@.subrange(0, k as int),
            decreases m - k,
        {
            if t.get_char(i + k) != sep.get_char(k) {
                proof {
                    assert(t@.subrange(i as int, i + k + 1)[k as int] != sep@.subrange(
                        0,
                        k as int + 1,
                    )[k as int]);
                }
                all_eq = false;
            } else {
                proof {
                    if all_eq {
                        assert(t@.subrange(i as int, i + k + 1) =~= sep@.subrange(0, k as int + 1));
                    } else {
                        let w = choose|w: int|
                            0 <= w < k && t@.subrange(i as int, i + k)[w] != sep@.subrange(
                                0,
                                k as int,
                            )[w];
                        assert(t@.subrange(i as int, i + k + 1)[w] != sep@.subrange(
                            0,
                            k as int + 1,
                        )[w]);
                    }
                }
            }
            k = k + 1;
        }
        if all_eq {
            proof {
                lemma_find_first_char(t@, sep@);
                assert(sep@.subrange(0, m as int) =~= sep@);
                assert(match_at(t@, sep@, i as int));
                if find_first(t@, sep@) is None {
                    assert(false);
                }
                let f = find_first(t@, sep@)->Some_0;
                assert(match_at(t@, sep@, f));
                assert(f == i as int);
            }
            return Some(i);
        }
        proof {
            assert(t@.subrange(i as int, i + m as int) != sep@.subrange(0, m as int));
            assert(sep@.subrange(0, m as int) =~= sep@);
            assert(!match_at(t@, sep@, i as int));
        }
        i = i + 1;
    }
    proof {
        lemma_find_first_char(t@, sep@);
        assert(forall|j: int| !match_at(t@, sep@, j));
        if find_first(t@, sep@) is Some {
            assert(match_at(t@, sep@, find_first(t@, sep@)->Some_0));
            assert(false);
        }
    }
    None
}


proof fn lemma_trim_start_head(s: Seq<char>)
    ensures
        trim_start_spec(s).len() > 0 ==> !is_whitespace_char(trim_start_spec(s)[0]),
    decreases s.len(),
{
    if s.len() > 0 && is_whitespace_char(s[0]) {
        lemma_trim_start_head(s.drop_first());
    }
}

proof fn lemma_trim_end_last(s: Seq<char>)
    ensures
        trim_end_spec(s).len() > 0 ==> !is_whitespace_char(trim_end_spec(s).last()),
    decreases s.len(),
{
    if s.len() > 0 && is_whitespace_char(s.last()) {
        lemma_trim_end_last(s.drop_last());
    }
}

proof fn lemma_trim_end_is_prefix(s: Seq<char>)
    ensures
        trim_end_spec(s).len() <= s.len(),
        trim_end_spec(s) == s.subrange(0, trim_end_spec(s).len() as int),
    decreases s.len(),
{
    if s.len() > 0 && is_whitespace_char(s.last()) {
        lemma_trim_end_is_prefix(s.drop_last());
        assert(s.drop_last().subrange(0, trim_end_spec(s).len() as int) =~= s.subrange(
            0,
            trim_end_spec(s).len() as int,
        ));
    } else {
        assert(s.subrange(0, s.len() as int) =~= s);
    }
}

/// Trimming is idempotent: trimming a trimmed text leaves it unchanged.
pub proof fn lemma_trim_idempotent(s: Seq<char>)
    ensures
        trim_spec(trim_spec(s)) == trim_spec(s),
        trim_spec(s).len() > 0 ==> !is_whitespace_char(trim_spec(s)[0]),
{
    let t = trim_start_spec(s);
    let e = trim_end_spec(t);
    lemma_trim_start_head(s);
    lemma_trim_end_is_prefix(t);
    lemma_trim_end_last(t);
    if e.len() == 0 {
        assert(trim_start_spec(e) == e);
        assert(trim_end_spec(e) == e);
    } else {
        assert(e[0] == t[0]);
        assert(t.len() > 0);
        assert(!is_whitespace_char(e[0]));
        assert(trim_start_spec(e) == e);
        assert(!is_whitespace_char(e.last()));
        assert(trim_end_spec(e) == e);
    }
}

/// Cuts `text` immediately after every leftmost occurrence of
/// `separator`, keeping the separator at the end of each piece; the empty
/// separator cuts after every character. No piece is empty.
pub fn str_split_inclusive<'a>(text: &'a str, separator: &str) -> (r: Vec<&'a str>)
    ensures
        r.deep_view() == split_incl(text@, separator@),
{
    let n = text.unicode_len();
    let m = separator.unicode_len();
    let mut r: Vec<&'a str> = Vec::new();
    if m == 0 {
        let mut i: usize = 0;
        while i < n
            invariant
                0 <= i <= n,
                n == text@.len(),
                r.deep_view() =~= Seq::new(i as nat, |k: int| seq![text@[k]]),
            decreases n - i,
        {
            let piece = text.substring_char(i, i + 1);
            let ghost pre = r@;
            let ghost pre_dv = r.deep_view();
            proof {
                assert(piece@ =~= seq![text@[i as int]]);
            }
            r.push(piece);
            proof {
                assert(pre.len() == pre_dv.len());
                assert(pre_dv.len() == i as int);
                assert(r@.len() == i + 1);
                assert forall|k: int| 0 <= k < i + 1 implies r.deep_view()[k] == seq![
                    text@[k],
                ] by {
                    assert(r@[k] == pre.push(piece)[k]);
                    if k < i {
                        assert(pre_dv[k] == seq![text@[k]]);
                    }
                }
                assert(r.deep_view() =~= Seq::new((i + 1) as nat, |k: int| seq![text@[k]]));
            }
            i = i + 1;
        }
        proof {
            if n == 0 {
                assert(r.deep_view() =~= split_incl(text@, separator@));
            } else {
                assert(r.deep_view() =~= split_incl(text@, separator@));
            }
        }
        return r;
    }
    let mut start: usize = 0;
    proof {
        assert(text@.subrange(0, n as int) =~= text@);
        assert(r.deep_view() =~= Seq::<Seq<char>>::empty());
        assert(Seq::<Seq<char>>::empty() + split_incl(text@, separator@) =~= split_incl(
            text@,
            separator@,
        ));
    }
    while start < n
        invariant
            0 <= start <= n,
            n == text@.len(),
            m == separator@.len(),
            m >= 1,
            r.deep_view() + split_incl(text@.subrange(start as int, n as int), separator@)
                == split_incl(text@, separator@),
        decreases n - start,
    {
        let ghost sub = text@.subrange(start as int, n as int);
        let rest = text.substring_char(start, n);
        match find_first_match(rest, separator) {
            Some(p) => {
                proof {
                    proof_find_first_bounds(rest@, separator@);
                }
                let cut = start + p + m;
                let piece = text.substring_char(start, cut);
                let ghost pre_dv = r.deep_view();
                proof {
                    assert(piece@ =~= sub.subrange(0, p + m as int));
                    assert(text@.subrange(cut as int, n as int) =~= sub.subrange(
                        p + m as int,
                        sub.len() as int,
                    ));
                    assert(split_incl(sub, separator@) == seq![piece@] + split_incl(
                        text@.subrange(cut as int, n as int),
                        separator@,
                    ));
                    assert(pre_dv.push(piece@) + split_incl(
                        text@.subrange(cut as int, n as int),
                        separator@,
                    ) =~= pre_dv + split_incl(sub, separator@));
                }
                let ghost pre = r@;
                r.push(piece);
                proof {
                    assert(pre.len() == pre_dv.len());
                    assert(r@.len() == pre_dv.len() + 1);
                    assert forall|k: int| 0 <= k < pre_dv.len() + 1 implies r.deep_view()[k]
                        == pre_dv.push(piece@)[k] by {
                        assert(r@[k] == pre.push(piece)[k]);
                        if k < pre_dv.len() {
                            assert(pre_dv[k] == pre[k]@);
                        }
                    }
                    assert(r.deep_view() =~= pre_dv.push(piece@));
                }
                start = cut;
            },
            None => {
                let piece = text.substring_char(start, n);
                let ghost pre_dv = r.deep_view();
                proof {
                    assert(piece@ =~= sub);
                    assert(split_incl(sub, separator@) == seq![sub]);
                    assert(pre_dv.push(piece@) + split_incl(
                        text@.subrange(n as int, n as int),
                        separator@,
                    ) =~= pre_dv + split_incl(sub, separator@));
                }
                let ghost pre = r@;
                r.push(piece);
                proof {
                    assert(pre.len() == pre_dv.len());
                    assert(r@.len() == pre_dv.len() + 1);
                    assert forall|k: int| 0 <= k < pre_dv.len() + 1 implies r.deep_view()[k]
                        == pre_dv.push(piece@)[k] by {
                        assert(r@[k] == pre.push(piece)[k]);
                        if k < pre_dv.len() {
                            assert(pre_dv[k] == pre[k]@);
                        }
                    }
                    assert(r.deep_view() =~= pre_dv.push(piece@));
                }
                start = n;
            },
        }
    }
    proof {
        assert(split_incl(text@.subrange(start as int, n as int), separator@)
            =~= Seq::<Seq<char>>::empty());
        assert(r.deep_view() =~= r.deep_view() + split_incl(
            text@.subrange(start as int, n as int),
            separator@,
        ));
    }
    r
}

/// Leading and trailing whitespace removal, as `str::trim` does it:
/// the result is `trim_spec` of the input.
pub fn trim_str<'a>(s: &'a str) -> (r: &'a str)
    ensures
        r@ == trim_spec(s@),
{
    let n = s.unicode_len();
    let mut a: usize = 0;
    while a < n && is_whitespace(s.get_char(a))
        invariant
            0 <= a <= n,
            n == s@.len(),
            forall|j: int| 0 <= j < a ==> is_whitespace_char(s@[j]),
        decreases n - a,
    {
        a = a + 1;
    }
    let mut b: usize = n;
    while b > a && is_whitespace(s.get_char(b - 1))
        invariant
            a <= b <= n,
            n == s@.len(),
            forall|j: int| 0 <= j < a ==> is_whitespace_char(s@[j]),
            a < n ==> !is_whitespace_char(s@[a as int]),
            forall|j: int| b <= j < n ==> is_whitespace_char(s@[j]),
        decreases b,
    {
        b = b - 1;
    }
    proof {
        lemma_trim_start_char(s@, a as int);
        let t = s@.subrange(a as int, n as int);
        lemma_trim_end_char(t, b - a);
        assert(t.subrange(0, b - a) =~= s@.subrange(a as int, b as int));
    }
    s.substring_char(a, b)
}

} // verus!
