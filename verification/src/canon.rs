//! Canonicalization of migration text before hashing.
//!
//! A migration file's canonical form is obtained line by line: everything
//! from the first `--` (the SQL line-comment marker) onward is dropped, the
//! line is trimmed of leading and trailing whitespace, lines left empty are
//! discarded, and the survivors are rejoined with single newlines. Edits
//! that only touch comments or surrounding whitespace therefore never
//! change the canonical form.

use vstd::prelude::*;

verus! {

/// The whitespace characters recognized when trimming a line: the Unicode
/// whitespace set.
pub open spec fn is_space_char(c: char) -> bool {
    c == ' ' || c == '\t' || c == '\n' || c == '\u{b}' || c == '\u{c}' || c == '\r'
        || c == '\u{85}' || c == '\u{a0}' || c == '\u{1680}' || c == '\u{2000}'
        || c == '\u{2001}' || c == '\u{2002}' || c == '\u{2003}' || c == '\u{2004}'
        || c == '\u{2005}' || c == '\u{2006}' || c == '\u{2007}' || c == '\u{2008}'
        || c == '\u{2009}' || c == '\u{200a}' || c == '\u{2028}' || c == '\u{2029}'
        || c == '\u{202f}' || c == '\u{205f}' || c == '\u{3000}'
}

/// Index of the first `--` in a line, or the line's length when it has none.
pub open spec fn comment_start(l: Seq<char>) -> int
    decreases l.len(),
{
    if l.len() < 2 {
        l.len() as int
    } else if l[0] == '-' && l[1] == '-' {
        0
    } else {
        1 + comment_start(l.drop_first())
    }
}

/// The line up to (excluding) its first `--`.
pub open spec fn strip_comment(l: Seq<char>) -> Seq<char> {
    l.subrange(0, comment_start(l))
}

/// The line with leading and trailing whitespace removed.
pub open spec fn trim(l: Seq<char>) -> Seq<char>
    decreases l.len(),
{
    if l.len() == 0 {
        l
    } else if is_space_char(l[0]) {
        trim(l.drop_first())
    } else if is_space_char(l[l.len() - 1]) {
        trim(l.drop_last())
    } else {
        l
    }
}

/// A line's canonical form: comment stripped, then trimmed.
pub open spec fn clean_line(l: Seq<char>) -> Seq<char> {
    trim(strip_comment(l))
}

/// Index of the first newline, or the text's length when it has none.
pub open spec fn nl_index(s: Seq<char>) -> int
    decreases s.len(),
{
    if s.len() == 0 {
        0
    } else if s[0] == '\n' {
        0
    } else {
        1 + nl_index(s.drop_first())
    }
}

/// The cleaned forms of the text's lines, with lines cleaned to nothing
/// discarded.
pub open spec fn kept_lines(s: Seq<char>) -> Seq<Seq<char>>
    decreases s.len(),
{
    if s.len() == 0 {
        Seq::empty()
    } else {
        let k = if 0 <= nl_index(s) <= s.len() {
            nl_index(s)
        } else {
            s.len() as int
        };
        let line = s.subrange(0, k);
        let rest = if k < s.len() {
            s.subrange(k + 1, s.len() as int)
        } else {
            Seq::empty()
        };
        let cl = clean_line(line);
        let tail = kept_lines(rest);
        if cl.len() == 0 {
            tail
        } else {
            seq![cl] + tail
        }
    }
}

/// Lines rejoined with single newline separators.
pub open spec fn join_lines(ls: Seq<Seq<char>>) -> Seq<char>
    decreases ls.len(),
{
    if ls.len() == 0 {
        Seq::empty()
    } else if ls.len() == 1 {
        ls[0]
    } else {
        ls[0] + seq!['\n'] + join_lines(ls.drop_first())
    }
}

/// The canonical form of a whole migration text.
pub open spec fn canon(s: Seq<char>) -> Seq<char> {
    join_lines(kept_lines(s))
}

/// `comment_start` is the first index at which `--` occurs, or the line's
/// length when `--` does not occur at all.
pub proof fn lemma_comment_start_props(l: Seq<char>)
    ensures
        0 <= comment_start(l) <= l.len(),
        comment_start(l) == l.len() || (comment_start(l) + 2 <= l.len() && l[comment_start(l)]
            == '-' && l[comment_start(l) + 1] == '-'),
        forall|j: int|
            0 <= j < comment_start(l) && j + 1 < l.len() ==> !(#[trigger] l[j] == '-' && l[j + 1] == '-'),
    decreases l.len(),
{
    if l.len() < 2 {
    } else if l[0] == '-' && l[1] == '-' {
    } else {
        let t = l.drop_first();
        lemma_comment_start_props(t);
        assert forall|j: int|
            0 <= j < comment_start(l) && j + 1 < l.len() implies !(#[trigger] l[j] == '-' && l[j + 1]
            == '-') by {
            if j > 0 {
                assert(t[j - 1] == l[j]);
                assert(t[j] == l[j + 1]);
            }
        }
    }
}

/// `nl_index` is the index of the first newline, or the text's length when
/// the text has none.
pub proof fn lemma_nl_index_props(s: Seq<char>)
    ensures
        0 <= nl_index(s) <= s.len(),
        nl_index(s) < s.len() ==> s[nl_index(s)] == '\n',
        forall|j: int| 0 <= j < nl_index(s) ==> s[j] != '\n',
    decreases s.len(),
{
    if s.len() == 0 {
    } else if s[0] == '\n' {
    } else {
        let t = s.drop_first();
        lemma_nl_index_props(t);
        assert forall|j: int| 0 <= j < nl_index(s) implies s[j] != '\n' by {
            if j > 0 {
                assert(t[j - 1] == s[j]);
            }
        }
    }
}

/// Trimming a line that neither starts nor ends with whitespace leaves it
/// unchanged.
pub proof fn lemma_trim_noop(s: Seq<char>)
    requires
        s.len() == 0 || (!is_space_char(s[0]) && !is_space_char(s[s.len() - 1])),
    ensures
        trim(s) == s,
{
}

/// Every line that `kept_lines` keeps is non-empty.
pub proof fn lemma_kept_lines_nonempty(s: Seq<char>)
    ensures
        forall|i: int| 0 <= i < kept_lines(s).len() ==> #[trigger] kept_lines(s)[i].len() > 0,
    decreases s.len(),
{
    if s.len() == 0 {
    } else {
        let k = if 0 <= nl_index(s) <= s.len() {
            nl_index(s)
        } else {
            s.len() as int
        };
        let rest = if k < s.len() {
            s.subrange(k + 1, s.len() as int)
        } else {
            Seq::<char>::empty()
        };
        lemma_kept_lines_nonempty(rest);
        let line = s.subrange(0, k);
        let cl = clean_line(line);
        let tail = kept_lines(rest);
        if cl.len() > 0 {
            assert(kept_lines(s) == seq![cl] + tail);
            assert forall|i: int|
                0 <= i < kept_lines(s).len() implies #[trigger] kept_lines(s)[i].len() > 0 by {
                if i == 0 {
                    assert(kept_lines(s)[i] == cl);
                } else {
                    assert(kept_lines(s)[i] == tail[i - 1]);
                }
            }
        }
    }
}

/// When every line of a list is non-empty, the joined text is empty exactly
/// when the list is.
pub proof fn lemma_join_lines_empty(ls: Seq<Seq<char>>)
    requires
        forall|i: int| 0 <= i < ls.len() ==> #[trigger] ls[i].len() > 0,
    ensures
        join_lines(ls).len() == 0 <==> ls.len() == 0,
{
    if ls.len() == 0 {
    } else if ls.len() == 1 {
        assert(ls[0].len() > 0);
    } else {
        assert(join_lines(ls).len() >= ls[0].len() + 1);
    }
}

/// The text's last line: everything after its last newline, or the whole
/// text when it has none.
pub open spec fn last_line(s: Seq<char>) -> Seq<char>
    decreases s.len(),
{
    if s.len() == 0 {
        s
    } else {
        let k = if 0 <= nl_index(s) <= s.len() {
            nl_index(s)
        } else {
            s.len() as int
        };
        if k == s.len() {
            s
        } else {
            last_line(s.subrange(k + 1, s.len() as int))
        }
    }
}

/// A text without newlines is its own single line.
pub proof fn lemma_nl_index_none(s: Seq<char>)
    requires
        forall|j: int| 0 <= j < s.len() ==> s[j] != '\n',
    ensures
        nl_index(s) == s.len(),
{
    lemma_nl_index_props(s);
    if nl_index(s) < s.len() {
        assert(s[nl_index(s)] == '\n');
    }
}

/// The first newline of `a + b` is the first newline of `a` when `a` has
/// one.
pub proof fn lemma_nl_index_concat(a: Seq<char>, b: Seq<char>)
    requires
        nl_index(a) < a.len(),
    ensures
        nl_index(a + b) == nl_index(a),
{
    let z = a + b;
    let k = nl_index(a);
    lemma_nl_index_props(a);
    lemma_nl_index_props(z);
    assert(z[k] == '\n');
    if nl_index(z) < k {
        assert(a[nl_index(z)] != '\n');
        assert(z[nl_index(z)] == a[nl_index(z)]);
    }
    if nl_index(z) > k {
        assert(z[k] != '\n');
    }
}

/// The first `--` of the text is at the given position when a `--` stands
/// there and none stands earlier.
pub proof fn lemma_comment_start_unique(l: Seq<char>, k: int)
    requires
        0 <= k,
        k + 2 <= l.len(),
        l[k] == '-',
        l[k + 1] == '-',
        forall|j: int| 0 <= j < k ==> !(#[trigger] l[j] == '-' && l[j + 1] == '-'),
    ensures
        comment_start(l) == k,
{
    lemma_comment_start_props(l);
    let m = comment_start(l);
    if m < k {
        assert(!(l[m] == '-' && l[m + 1] == '-'));
    }
    if m > k {
        assert(!(l[k] == '-' && l[k + 1] == '-'));
    }
}

/// A prefix that already holds a `--` keeps its comment start under any
/// extension.
pub proof fn lemma_comment_start_prefix(l: Seq<char>, z: Seq<char>)
    requires
        comment_start(l) + 2 <= l.len(),
    ensures
        comment_start(l + z) == comment_start(l),
    decreases l.len(),
{
    lemma_comment_start_props(l);
    let m = comment_start(l);
    lemma_comment_start_unique(
        l + z,
        m,
    );
}

/// Appending `--` and arbitrary trailing text to a line never changes its
/// canonical form, as long as the line does not end with a bare `-` that
/// the appended marker would complete earlier.
pub proof fn lemma_comment_append_line(l: Seq<char>, c: Seq<char>)
    requires
        comment_start(l) == l.len() ==> (l.len() == 0 || l[l.len() - 1] != '-'),
    ensures
        clean_line(l + seq!['-', '-'] + c) == clean_line(l),
{
    lemma_comment_start_props(l);
    let z = l + seq!['-', '-'] + c;
    let m = comment_start(l);
    if m + 2 <= l.len() {
        lemma_comment_start_prefix(l, seq!['-', '-'] + c);
        assert(z =~= l + (seq!['-', '-'] + c));
        assert(z.subrange(0, m) =~= l.subrange(0, m));
    } else {
        assert(m == l.len());
        assert(z[l.len() as int] == '-');
        assert(z[l.len() as int + 1] == '-');
        assert forall|j: int| 0 <= j < l.len() implies !(#[trigger] z[j] == '-' && z[j + 1]
            == '-') by {
            assert(z[j] == l[j]);
            if j + 1 < l.len() {
                assert(z[j + 1] == l[j + 1]);
            } else {
                assert(j == l.len() - 1);
                assert(z[j] != '-');
            }
        }
        lemma_comment_start_unique(z, l.len() as int);
        assert(z.subrange(0, l.len() as int) =~= l);
        assert(l.subrange(0, m) =~= l);
    }
}

/// When a newline-free suffix leaves the last line's canonical form as it
/// was, the whole text keeps its canonical lines.
pub proof fn lemma_kept_append_last(x: Seq<char>, suffix: Seq<char>)
    requires
        forall|j: int| 0 <= j < suffix.len() ==> suffix[j] != '\n',
        clean_line(last_line(x) + suffix) == clean_line(last_line(x)),
    ensures
        kept_lines(x + suffix) == kept_lines(x),
    decreases x.len(),
{
    lemma_nl_index_props(x);
    let z = x + suffix;
    if x.len() == 0 {
        assert(z =~= suffix);
        lemma_nl_index_none(suffix);
        assert(last_line(x) + suffix =~= suffix);
        if suffix.len() == 0 {
        } else {
            assert(clean_line(Seq::<char>::empty()) == Seq::<char>::empty()) by {
                assert(strip_comment(Seq::<char>::empty()) =~= Seq::<char>::empty());
            }
            assert(suffix.subrange(0, suffix.len() as int) =~= suffix);
            assert(kept_lines(Seq::<char>::empty()) =~= Seq::<Seq<char>>::empty());
            assert(kept_lines(suffix) =~= Seq::<Seq<char>>::empty());
        }
    } else if nl_index(x) == x.len() {
        lemma_nl_index_none(z);
        assert(last_line(x) == x);
        assert(x.subrange(0, x.len() as int) =~= x);
        if z.len() > 0 {
            assert(z.subrange(0, z.len() as int) =~= last_line(x) + suffix);
        }
    } else {
        let k = nl_index(x);
        lemma_nl_index_concat(x, suffix);
        let rest = x.subrange(k + 1, x.len() as int);
        assert(z.subrange(0, k) =~= x.subrange(0, k));
        assert(z.subrange(k + 1, z.len() as int) =~= rest + suffix);
        assert(last_line(x) == last_line(rest));
        lemma_kept_append_last(rest, suffix);
    }
}

/// Whether the character is in the whitespace set trimmed from line ends.
pub fn char_is_space(c: char) -> (r: bool)
    ensures
        r == is_space_char(c),
{
    c == ' ' || c == '\t' || c == '\n' || c == '\u{b}' || c == '\u{c}' || c == '\r'
        || c == '\u{85}' || c == '\u{a0}' || c == '\u{1680}' || c == '\u{2000}'
        || c == '\u{2001}' || c == '\u{2002}' || c == '\u{2003}' || c == '\u{2004}'
        || c == '\u{2005}' || c == '\u{2006}' || c == '\u{2007}' || c == '\u{2008}'
        || c == '\u{2009}' || c == '\u{200a}' || c == '\u{2028}' || c == '\u{2029}'
        || c == '\u{202f}' || c == '\u{205f}' || c == '\u{3000}'
}

/// The canonical form of a single line: drop everything from the first
/// `--` onward, then trim whitespace from both ends.
pub fn clean_line_exec(line: &str) -> (r: String)
    ensures
        r@ == clean_line(line@),
{
    let n = line.unicode_len();
    let mut i: usize = 0;
    if n >= 1 {
        while i < n - 1 && !(line.get_char(i) == '-' && line.get_char(i + 1) == '-')
            invariant
                n == line@.len(),
                n >= 1,
                0 <= i <= n - 1,
                forall|j: int| 0 <= j < i ==> !(#[trigger] line@[j] == '-' && line@[j + 1] == '-'),
            decreases n - i,
        {
            i = i + 1;
        }
    }
    proof {
        lemma_comment_start_props(line@);
    }
    let cut: usize = if n >= 1 && i < n - 1 {
        i
    } else {
        n
    };
    proof {
        assert(cut == comment_start(line@)) by {
            if n >= 1 && i < n - 1 {
                assert(line@[i as int] == '-' && line@[i + 1] == '-');
            } else {
                assert forall|j: int|
                    0 <= j < comment_start(line@) && j + 1 < line@.len() implies !(#[trigger] line@[j] == '-'
                    && line@[j + 1] == '-') by {}
            }
        }
    }
    let mut lo: usize = 0;
    let mut hi: usize = cut;
    while lo < hi && char_is_space(line.get_char(lo))
        invariant
            n == line@.len(),
            0 <= lo <= hi <= cut <= n,
            trim(line@.subrange(0, cut as int)) == trim(line@.subrange(lo as int, hi as int)),
        decreases hi - lo,
    {
        proof {
            let cur = line@.subrange(lo as int, hi as int);
            assert(cur.drop_first() =~= line@.subrange(lo + 1, hi as int));
        }
        lo = lo + 1;
    }
    while lo < hi && char_is_space(line.get_char(hi - 1))
        invariant
            n == line@.len(),
            0 <= lo <= hi <= cut <= n,
            trim(line@.subrange(0, cut as int)) == trim(line@.subrange(lo as int, hi as int)),
            lo < hi ==> !is_space_char(line@[lo as int]),
        decreases hi,
    {
        proof {
            let cur = line@.subrange(lo as int, hi as int);
            assert(cur.drop_last() =~= line@.subrange(lo as int, hi - 1));
        }
        hi = hi - 1;
    }
    proof {
        lemma_trim_noop(line@.subrange(lo as int, hi as int));
    }
    let r = line.substring_char(lo, hi);
    r.to_owned()
}

/// The canonical form of a whole migration text: each line cleaned, empty
/// results dropped, survivors rejoined with single newlines.
pub fn canonicalize(text: &str) -> (r: String)
    ensures
        r@ == canon(text@),
    decreases text@.len(),
{
    let n = text.unicode_len();
    if n == 0 {
        return String::new();
    }
    let mut k: usize = 0;
    while k < n && text.get_char(k) != '\n'
        invariant
            n == text@.len(),
            0 <= k <= n,
            forall|j: int| 0 <= j < k ==> text@[j] != '\n',
        decreases n - k,
    {
        k = k + 1;
    }
    proof {
        lemma_nl_index_props(text@);
        assert(k == nl_index(text@)) by {
            if k < n {
                assert(text@[k as int] == '\n');
            }
        }
    }
    let line = text.substring_char(0, k);
    let cl = clean_line_exec(line);
    let ghost kept = kept_lines(text@);
    if k == n {
        proof {
            assert(kept_lines(Seq::<char>::empty()) =~= Seq::<Seq<char>>::empty());
            if cl@.len() == 0 {
                assert(kept =~= Seq::<Seq<char>>::empty());
            } else {
                assert(kept =~= seq![cl@]);
            }
        }
        return cl;
    }
    let rest = text.substring_char(k + 1, n);
    let rec = canonicalize(rest);
    proof {
        if cl@.len() == 0 {
            assert(kept =~= kept_lines(rest@));
        } else {
            assert(kept =~= seq![cl@] + kept_lines(rest@));
        }
    }
    if cl.as_str().is_empty() {
        return rec;
    }
    if rec.as_str().is_empty() {
        proof {
            lemma_kept_lines_nonempty(rest@);
            lemma_join_lines_empty(kept_lines(rest@));
            assert(kept =~= seq![cl@]);
        }
        return cl;
    }
    proof {
        lemma_kept_lines_nonempty(rest@);
        lemma_join_lines_empty(kept_lines(rest@));
        reveal_strlit("\n");
        assert("\n"@ =~= seq!['\n']);
        assert(kept.drop_first() =~= kept_lines(rest@));
    }
    cl.concat("\n").concat(rec.as_str())
}

} // verus!
