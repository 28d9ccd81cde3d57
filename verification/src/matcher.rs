//! The line matchers: substring containment, line splitting, and the two
//! search passes (exact and lowercase-folded), all stated over sequences of
//! characters.

use vstd::prelude::*;
use vstd::string::StrSliceExecFns;

verus! {

/// `needle` stands at position `i` of `hay`.
pub open spec fn matches_at(hay: Seq<char>, needle: Seq<char>, i: int) -> bool {
    &&& 0 <= i
    &&& i + needle.len() <= hay.len()
    &&& forall|j: int| 0 <= j < needle.len() ==> hay[i + j] == needle[j]
}

/// `needle` occurs somewhere in `hay`; an empty needle occurs in every
/// haystack, the empty one included.
pub open spec fn contains_seq(hay: Seq<char>, needle: Seq<char>) -> bool {
    exists|i: int| matches_at(hay, needle, i)
}

/// Whether `needle` stands at position `i` of `hay`.
fn matches_at_exec(hay: &str, needle: &str, i: usize, hay_len: usize, needle_len: usize) -> (r:
    bool)
    requires
        hay_len == hay@.len(),
        needle_len == needle@.len(),
        i + needle_len <= hay_len,
    ensures
        r == matches_at(hay@, needle@, i as int),
{
    let mut j: usize = 0;
    while j < needle_len
        invariant
            hay_len == hay@.len(),
            needle_len == needle@.len(),
            i + needle_len <= hay_len,
            j <= needle_len,
            forall|k: int| 0 <= k < j ==> hay@[i + k] == needle@[k],
        decreases needle_len - j,
    {
        if hay.get_char(i + j) != needle.get_char(j) {
            return false;
        }
        j = j + 1;
    }
    true
}

/// Whether `needle` occurs anywhere in `hay`. The case-insensitive search
/// hands this function the folded line and the folded query.
pub fn contains_str(hay: &str, needle: &str) -> (r: bool)
    ensures
        r == contains_seq(hay@, needle@),
{
    let hay_len = hay.unicode_len();
    let needle_len = needle.unicode_len();
    if needle_len > hay_len {
        proof {
            assert forall|k: int| !matches_at(hay@, needle@, k) by {
                if matches_at(hay@, needle@, k) {
                    assert(k + needle@.len() <= hay@.len());
                }
            }
        }
        return false;
    }
    let mut i: usize = 0;
    while i <= hay_len - needle_len
        invariant
            hay_len == hay@.len(),
            needle_len == needle@.len(),
            needle_len <= hay_len,
            i <= hay_len - needle_len + 1,
            forall|k: int| 0 <= k < i ==> !matches_at(hay@, needle@, k),
        decreases hay_len - needle_len + 1 - i,
    {
        if matches_at_exec(hay, needle, i, hay_len, needle_len) {
            return true;
        }
        i = i + 1;
    }
    proof {
        assert forall|k: int| !matches_at(hay@, needle@, k) by {
            if matches_at(hay@, needle@, k) {
                assert(0 <= k < i);
            }
        }
    }
    false
}

/// A segment that a newline terminated sheds one trailing carriage return.
pub open spec fn strip_cr(l: Seq<char>) -> Seq<char> {
    if l.len() > 0 && l[l.len() - 1] == '\r' {
        l.subrange(0, l.len() - 1)
    } else {
        l
    }
}

/// Index of the first newline of `s`, or `s.len()` when there is none.
pub open spec fn first_nl(s: Seq<char>) -> int
    decreases s.len(),
{
    if s.len() == 0 {
        0
    } else if s[0] == '\n' {
        0
    } else {
        1 + first_nl(s.subrange(1, s.len() as int))
    }
}

/// `first_nl` is pinned by what the characters before and at position `k`
/// are: no newline before `k`, and a newline (or the end) at `k`.
proof fn lemma_first_nl_is(s: Seq<char>, k: int)
    requires
        0 <= k <= s.len(),
        forall|j: int| 0 <= j < k ==> s[j] != '\n',
        k < s.len() ==> s[k] == '\n',
    ensures
        first_nl(s) == k,
    decreases s.len(),
{
    if s.len() == 0 {
    } else if s[0] == '\n' {
        assert(k == 0);
    } else {
        assert(k >= 1) by {
            if k == 0 {
                assert(s[0] == '\n');
            }
        }
        let t = s.subrange(1, s.len() as int);
        assert forall|j: int| 0 <= j < k - 1 implies t[j] != '\n' by {
            assert(t[j] == s[j + 1]);
        }
        lemma_first_nl_is(t, k - 1);
    }
}

/// The lines of `s`: the segments between newlines, each terminated segment
/// shedding one trailing carriage return; the text after the last newline is
/// a final line unless it is empty.
pub open spec fn lines_of(s: Seq<char>) -> Seq<Seq<char>>
    decreases s.len(),
{
    if s.len() == 0 {
        Seq::empty()
    } else {
        let i = first_nl(s);
        if !(0 <= i < s.len()) {
            seq![s]
        } else {
            seq![strip_cr(s.subrange(0, i))] + lines_of(s.subrange(i + 1, s.len() as int))
        }
    }
}

/// Splits `contents` into its lines, as owned copies of the segments.
pub fn split_lines(contents: &str) -> (r: Vec<String>)
    ensures
        r.deep_view() == lines_of(contents@),
{
    let n = contents.unicode_len();
    let mut r: Vec<String> = Vec::new();
    let mut start: usize = 0;
    proof {
        assert(contents@.subrange(0, n as int) =~= contents@);
        assert(r.deep_view() + lines_of(contents@) =~= lines_of(contents@));
    }
    while start < n
        invariant
            n == contents@.len(),
            start <= n,
            lines_of(contents@) == r.deep_view() + lines_of(
                contents@.subrange(start as int, n as int),
            ),
        decreases n - start,
    {
        let ghost rem = contents@.subrange(start as int, n as int);
        let mut i: usize = start;
        while i < n && contents.get_char(i) != '\n'
            invariant
                n == contents@.len(),
                start <= i <= n,
                forall|j: int| start <= j < i ==> contents@[j] != '\n',
            decreases n - i,
        {
            i = i + 1;
        }
        proof {
            assert forall|j: int| 0 <= j < i - start implies rem[j] != '\n' by {
                assert(rem[j] == contents@[start + j]);
            }
            if i < n {
                assert(rem[i - start] == contents@[i as int]);
            }
            lemma_first_nl_is(rem, i - start);
        }
        let line: &str = if i > start && contents.get_char(i - 1) == '\r' && i < n {
            contents.substring_char(start, i - 1)
        } else {
            contents.substring_char(start, i)
        };
        let ghost old_views = r.deep_view();
        r.push(line.to_owned());
        proof {
            assert(r.deep_view() =~= old_views + seq![line@]);
            if i == n {
                assert(lines_of(rem) == seq![rem]);
                assert(line@ =~= rem);
                assert(lines_of(contents@.subrange(n as int, n as int)) == Seq::<Seq<
                    char,
                >>::empty());
                assert(lines_of(contents@) =~= (old_views + seq![line@]) + lines_of(
                    contents@.subrange(n as int, n as int),
                ));
            } else {
                let seg = rem.subrange(0, i - start);
                assert(lines_of(rem) == seq![strip_cr(seg)] + lines_of(
                    rem.subrange(i - start + 1, rem.len() as int),
                ));
                assert(seg =~= contents@.subrange(start as int, i as int));
                assert(rem.subrange(i - start + 1, rem.len() as int) =~= contents@.subrange(
                    i + 1,
                    n as int,
                ));
                assert(line@ =~= strip_cr(seg));
                assert(lines_of(contents@) =~= (old_views + seq![line@]) + lines_of(
                    contents@.subrange(i + 1, n as int),
                ));
            }
        }
        if i == n {
            start = n;
        } else {
            start = i + 1;
        }
    }
    proof {
        assert(lines_of(contents@.subrange(n as int, n as int)) == Seq::<Seq<char>>::empty());
        assert(r.deep_view() =~= r.deep_view() + lines_of(contents@.subrange(n as int, n as int)));
    }
    r
}

/// What `str::to_lowercase` returns on a string with these characters: the
/// lowercase-folded form, a function of the characters alone.
pub uninterp spec fn lower_of(s: Seq<char>) -> Seq<char>;

/// Relies on `str::to_lowercase`: its result depends on the characters of
/// `s` alone, and an empty string folds to an empty string.
#[verifier::external_body]
fn to_lowercase_str(s: &str) -> (r: String)
    ensures
        r@ == lower_of(s@),
        s@.len() == 0 ==> r@.len() == 0,
{
    s.to_lowercase()
}

/// Whether the matcher keeps line `l` for query `q`: by exact containment,
/// or, when `folded`, by containment between the lowercase-folded forms.
pub open spec fn line_selected(l: Seq<char>, q: Seq<char>, folded: bool) -> bool {
    if folded {
        contains_seq(lower_of(l), lower_of(q))
    } else {
        contains_seq(l, q)
    }
}

/// The lines of `ls` that the matcher keeps for query `q`, in their original
/// order.
pub open spec fn selected_lines(ls: Seq<Seq<char>>, q: Seq<char>, folded: bool) -> Seq<Seq<char>>
    decreases ls.len(),
{
    if ls.len() == 0 {
        Seq::empty()
    } else {
        let rest = selected_lines(ls.drop_last(), q, folded);
        if line_selected(ls.last(), q, folded) {
            rest.push(ls.last())
        } else {
            rest
        }
    }
}

/// What `search` returns, over character sequences.
pub open spec fn search_spec(q: Seq<char>, c: Seq<char>) -> Seq<Seq<char>> {
    selected_lines(lines_of(c), q, false)
}

/// What `search_case_insensitive` returns, over character sequences.
pub open spec fn search_ci_spec(q: Seq<char>, c: Seq<char>) -> Seq<Seq<char>> {
    selected_lines(lines_of(c), q, true)
}

proof fn lemma_selected_lines_push(ls: Seq<Seq<char>>, l: Seq<char>, q: Seq<char>, folded: bool)
    ensures
        selected_lines(ls.push(l), q, folded) == (if line_selected(l, q, folded) {
            selected_lines(ls, q, folded).push(l)
        } else {
            selected_lines(ls, q, folded)
        }),
{
    assert(ls.push(l).drop_last() =~= ls);
    assert(ls.push(l).last() == l);
}

/// An empty query matches every line: with it the exact matcher keeps the
/// whole sequence of lines.
pub proof fn lemma_empty_query_matches_all(ls: Seq<Seq<char>>, q: Seq<char>)
    requires
        q.len() == 0,
    ensures
        selected_lines(ls, q, false) == ls,
    decreases ls.len(),
{
    if ls.len() > 0 {
        lemma_empty_query_matches_all(ls.drop_last(), q);
        assert(matches_at(ls.last(), q, 0));
    }
    assert(selected_lines(ls, q, false) =~= ls);
}

proof fn lemma_empty_folded_query_matches_all(ls: Seq<Seq<char>>, q: Seq<char>)
    requires
        lower_of(q).len() == 0,
    ensures
        selected_lines(ls, q, true) == ls,
    decreases ls.len(),
{
    if ls.len() > 0 {
        lemma_empty_folded_query_matches_all(ls.drop_last(), q);
        assert(matches_at(lower_of(ls.last()), lower_of(q), 0));
    }
    assert(selected_lines(ls, q, true) =~= ls);
}

/// `m` witnesses that the matcher's result is an ordered subsequence of the
/// lines `ls`: `m` lists, in strictly increasing order, the indices of the
/// lines the matcher keeps, and those are exactly the selected ones.
pub open spec fn selection_witness(
    m: Seq<int>,
    ls: Seq<Seq<char>>,
    q: Seq<char>,
    folded: bool,
) -> bool {
    &&& m.len() == selected_lines(ls, q, folded).len()
    &&& forall|k: int| 0 <= k < m.len() ==> 0 <= #[trigger] m[k] < ls.len()
    &&& forall|k: int| 0 <= k < m.len() ==> selected_lines(ls, q, folded)[k] == ls[#[trigger] m[k]]
    &&& forall|k: int| 0 <= k < m.len() ==> line_selected(ls[#[trigger] m[k]], q, folded)
    &&& forall|k: int| 0 <= k && k + 1 < m.len() ==> #[trigger] m[k] < m[k + 1]
    &&& forall|i: int| 0 <= i < ls.len() && #[trigger] line_selected(ls[i], q, folded)
        ==> m.contains(i)
}

/// Each matcher returns an ordered subsequence of the lines: some strictly
/// increasing list of indices picks out, in their original order, exactly
/// the lines the matcher keeps. Applied to `lines_of(c)`, this holds of
/// `search_spec(q, c)` with `folded` false and of `search_ci_spec(q, c)`
/// with `folded` true.
#[verifier::rlimit(50)]
pub proof fn lemma_selected_lines_subsequence(ls: Seq<Seq<char>>, q: Seq<char>, folded: bool)
    ensures
        exists|m: Seq<int>| selection_witness(m, ls, q, folded),
    decreases ls.len(),
{
    let sel = selected_lines(ls, q, folded);
    if ls.len() == 0 {
        let m = Seq::<int>::empty();
        assert(selection_witness(m, ls, q, folded));
    } else {
        let prev = ls.drop_last();
        lemma_selected_lines_subsequence(prev, q, folded);
        let m0 = choose|m: Seq<int>| selection_witness(m, prev, q, folded);
        let sel0 = selected_lines(prev, q, folded);
        let last_i: int = ls.len() - 1;
        assert(forall|i: int| 0 <= i < prev.len() ==> prev[i] == #[trigger] ls[i]);
        if line_selected(ls.last(), q, folded) {
            let m = m0.push(last_i);
            assert(sel == sel0.push(ls.last()));
            assert forall|k: int|
                0 <= k < m.len() implies 0 <= #[trigger] m[k] < ls.len() && sel[k] == ls[m[k]]
                && line_selected(ls[m[k]], q, folded) by {
                if k < m0.len() {
                    assert(m[k] == m0[k]);
                    assert(sel0[k] == prev[m0[k]]);
                } else {
                    assert(m[k] == last_i);
                }
            }
            assert forall|k: int| 0 <= k && k + 1 < m.len() implies #[trigger] m[k] < m[k + 1] by {
                if k + 1 < m0.len() {
                    assert(m[k] == m0[k] && m[k + 1] == m0[k + 1]);
                } else {
                    assert(m[k] == m0[k] && m0[k] < prev.len());
                }
            }
            assert forall|i: int|
                0 <= i < ls.len() && #[trigger] line_selected(ls[i], q, folded) implies m.contains(
                i,
            ) by {
                if i < last_i {
                    assert(prev[i] == ls[i]);
                    assert(m0.contains(i));
                    let k = choose|k: int| 0 <= k < m0.len() && m0[k] == i;
                    assert(m[k] == i);
                } else {
                    assert(m[m0.len() as int] == i);
                }
            }
            assert(selection_witness(m, ls, q, folded));
        } else {
            let m = m0;
            assert(sel == sel0);
            assert forall|k: int|
                0 <= k < m.len() implies 0 <= #[trigger] m[k] < ls.len() && sel[k] == ls[m[k]]
                && line_selected(ls[m[k]], q, folded) by {
                assert(sel0[k] == prev[m0[k]]);
                assert(m0[k] < prev.len());
            }
            assert forall|i: int|
                0 <= i < ls.len() && #[trigger] line_selected(ls[i], q, folded) implies m.contains(
                i,
            ) by {
                assert(i < last_i);
                assert(prev[i] == ls[i]);
                assert(m0.contains(i));
            }
            assert(selection_witness(m, ls, q, folded));
        }
    }
}

/// Both matchers are pure: what they return is a function of the query and
/// the contents alone, so two calls on identical inputs yield identical
/// output sequences.
pub proof fn lemma_matcher_deterministic(
    q: Seq<char>,
    c: Seq<char>,
    folded: bool,
    r1: Seq<Seq<char>>,
    r2: Seq<Seq<char>>,
)
    requires
        r1 == selected_lines(lines_of(c), q, folded),
        r2 == selected_lines(lines_of(c), q, folded),
    ensures
        r1 == r2,
{
}

/// Empty contents split into no lines, and on them each matcher returns an
/// empty sequence.
pub proof fn lemma_empty_contents(q: Seq<char>, folded: bool)
    ensures
        lines_of(Seq::<char>::empty()) == Seq::<Seq<char>>::empty(),
        selected_lines(lines_of(Seq::<char>::empty()), q, folded) == Seq::<Seq<char>>::empty(),
{
}

/// Returns, in their original order, every line of `contents` that contains
/// `query`, compared character for character.
pub fn search(query: &str, contents: &str) -> (r: Vec<String>)
    ensures
        r.deep_view() == search_spec(query@, contents@),
        query@.len() == 0 ==> r.deep_view() == lines_of(contents@),
        contents@.len() == 0 ==> r@.len() == 0,
{
    let ls = split_lines(contents);
    let mut r: Vec<String> = Vec::new();
    let mut idx: usize = 0;
    proof {
        assert(ls.deep_view().subrange(0, 0) =~= Seq::<Seq<char>>::empty());
        assert(r.deep_view() =~= Seq::<Seq<char>>::empty());
    }
    while idx < ls.len()
        invariant
            ls.deep_view() == lines_of(contents@),
            idx <= ls.len(),
            r.deep_view() == selected_lines(ls.deep_view().subrange(0, idx as int), query@, false),
        decreases ls.len() - idx,
    {
        let ghost prefix = ls.deep_view().subrange(0, idx as int);
        let line = &ls[idx];
        proof {
            assert(ls.deep_view().subrange(0, idx + 1) =~= prefix.push(line@));
            lemma_selected_lines_push(prefix, line@, query@, false);
        }
        if contains_str(line.as_str(), query) {
            let ghost old_views = r.deep_view();
            r.push(line.clone());
            proof {
                assert(r.deep_view() =~= old_views.push(line@));
            }
        }
        idx = idx + 1;
    }
    proof {
        assert(ls.deep_view().subrange(0, ls.len() as int) =~= ls.deep_view());
        if query@.len() == 0 {
            lemma_empty_query_matches_all(ls.deep_view(), query@);
        }
    }
    r
}

/// Returns, in their original order, every line of `contents` whose
/// lowercase-folded form contains the lowercase-folded form of `query`; the
/// returned lines keep their original casing.
pub fn search_case_insensitive(query: &str, contents: &str) -> (r: Vec<String>)
    ensures
        r.deep_view() == search_ci_spec(query@, contents@),
        query@.len() == 0 ==> r.deep_view() == lines_of(contents@),
        contents@.len() == 0 ==> r@.len() == 0,
{
    let folded_query = to_lowercase_str(query);
    let ls = split_lines(contents);
    let mut r: Vec<String> = Vec::new();
    let mut idx: usize = 0;
    proof {
        assert(ls.deep_view().subrange(0, 0) =~= Seq::<Seq<char>>::empty());
        assert(r.deep_view() =~= Seq::<Seq<char>>::empty());
    }
    while idx < ls.len()
        invariant
            ls.deep_view() == lines_of(contents@),
            folded_query@ == lower_of(query@),
            idx <= ls.len(),
            r.deep_view() == selected_lines(ls.deep_view().subrange(0, idx as int), query@, true),
        decreases ls.len() - idx,
    {
        let ghost prefix = ls.deep_view().subrange(0, idx as int);
        let line = &ls[idx];
        proof {
            assert(ls.deep_view().subrange(0, idx + 1) =~= prefix.push(line@));
            lemma_selected_lines_push(prefix, line@, query@, true);
        }
        let folded_line = to_lowercase_str(line.as_str());
        if contains_str(folded_line.as_str(), folded_query.as_str()) {
            let ghost old_views = r.deep_view();
            r.push(line.clone());
            proof {
                assert(r.deep_view() =~= old_views.push(line@));
            }
        }
        idx = idx + 1;
    }
    proof {
        assert(ls.deep_view().subrange(0, ls.len() as int) =~= ls.deep_view());
        if query@.len() == 0 {
            lemma_empty_folded_query_matches_all(ls.deep_view(), query@);
        }
    }
    r
}

} // verus!
