//! Apply-order listing of migration files.
//!
//! The front end walks the migrations directory and hands the library one
//! `SqlFile` per readable `.sql` file; the library sorts them by filename.
//! Filenames are compared code point by code point, which for UTF-8 names
//! coincides with ascending byte order; this order is the apply order.

use vstd::prelude::*;
use vstd::relations::{sorted_by, total_ordering};
use vstd::seq_lib::{group_to_multiset_ensures, lemma_sorted_unique, to_multiset_insert,
    to_multiset_remove};

verus! {

/// One migration file as found on disk: base filename and full text.
pub struct SqlFile {
    pub filename: String,
    pub text: String,
}

/// The mathematical value of an on-disk file.
pub ghost struct SqlFileV {
    pub filename: Seq<char>,
    pub text: Seq<char>,
}

impl View for SqlFile {
    type V = SqlFileV;

    open spec fn view(&self) -> SqlFileV {
        SqlFileV { filename: self.filename@, text: self.text@ }
    }
}

/// The filenames of a file listing.
pub open spec fn file_names(v: Seq<SqlFile>) -> Seq<Seq<char>> {
    v.map_values(|f: SqlFile| f.filename@)
}

/// The mathematical values of a file listing.
pub open spec fn file_views(v: Seq<SqlFile>) -> Seq<SqlFileV> {
    v.map_values(|f: SqlFile| f@)
}

/// Code-point-wise lexicographic order on filenames.
pub open spec fn lex_le(a: Seq<char>, b: Seq<char>) -> bool
    decreases a.len(),
{
    if a.len() == 0 {
        true
    } else if b.len() == 0 {
        false
    } else if (a[0] as u32) < (b[0] as u32) {
        true
    } else if (a[0] as u32) > (b[0] as u32) {
        false
    } else {
        lex_le(a.drop_first(), b.drop_first())
    }
}

/// The filename order as a relation value, for `sorted_by`.
pub open spec fn lex_rel() -> spec_fn(Seq<char>, Seq<char>) -> bool {
    |a: Seq<char>, b: Seq<char>| lex_le(a, b)
}

/// The filename order relates every pair one way or the other.
pub proof fn lemma_lex_connected(a: Seq<char>, b: Seq<char>)
    ensures
        lex_le(a, b) || lex_le(b, a),
    decreases a.len(),
{
    if a.len() > 0 && b.len() > 0 && (a[0] as u32) == (b[0] as u32) {
        lemma_lex_connected(a.drop_first(), b.drop_first());
    }
}

/// Chars with one code point are one char.
proof fn lemma_char_cast_injective(c: char, d: char)
    requires
        c as u32 == d as u32,
    ensures
        c == d,
{
}

/// Filenames that the order relates both ways are equal.
pub proof fn lemma_lex_antisymmetric(a: Seq<char>, b: Seq<char>)
    requires
        lex_le(a, b),
        lex_le(b, a),
    ensures
        a == b,
    decreases a.len(),
{
    if a.len() == 0 {
        assert(b.len() == 0);
        assert(a =~= b);
    } else {
        assert((a[0] as u32) == (b[0] as u32)) by {
            if (a[0] as u32) < (b[0] as u32) {
                assert(!lex_le(b, a));
            }
            if (a[0] as u32) > (b[0] as u32) {
                assert(!lex_le(a, b));
            }
        }
        lemma_lex_antisymmetric(a.drop_first(), b.drop_first());
        lemma_char_cast_injective(a[0], b[0]);
        assert(a =~= b) by {
            assert(a[0] == b[0]);
            assert forall|i: int| 0 < i < a.len() implies a[i] == b[i] by {
                assert(a.drop_first()[i - 1] == b.drop_first()[i - 1]);
            }
        }
    }
}

/// The filename order is transitive.
pub proof fn lemma_lex_transitive(a: Seq<char>, b: Seq<char>, c: Seq<char>)
    requires
        lex_le(a, b),
        lex_le(b, c),
    ensures
        lex_le(a, c),
    decreases a.len(),
{
    if a.len() > 0 && b.len() > 0 && c.len() > 0 && (a[0] as u32) == (b[0] as u32) && (b[0] as u32)
        == (c[0] as u32) {
        lemma_lex_transitive(a.drop_first(), b.drop_first(), c.drop_first());
    }
}

/// The filename order is a total ordering.
pub proof fn lemma_lex_total_ordering()
    ensures
        total_ordering(lex_rel()),
{
    assert forall|a: Seq<char>| #[trigger] lex_rel()(a, a) by {
        lemma_lex_connected(a, a);
    }
    assert forall|a: Seq<char>, b: Seq<char>|
        #[trigger] lex_rel()(a, b) && #[trigger] lex_rel()(b, a) implies a == b by {
        lemma_lex_antisymmetric(a, b);
    }
    assert forall|a: Seq<char>, b: Seq<char>, c: Seq<char>|
        #[trigger] lex_rel()(a, b) && #[trigger] lex_rel()(b, c) implies lex_rel()(a, c) by {
        lemma_lex_transitive(a, b, c);
    }
    assert forall|a: Seq<char>, b: Seq<char>| #[trigger] lex_rel()(a, b) || #[trigger] lex_rel()(
        b,
        a,
    ) by {
        lemma_lex_connected(a, b);
    }
}

/// Whether one filename comes no later than another in apply order.
pub fn str_lex_le(a: &str, b: &str) -> (r: bool)
    ensures
        r == lex_le(a@, b@),
{
    let na = a.unicode_len();
    let nb = b.unicode_len();
    proof {
        assert(a@.subrange(0, na as int) =~= a@);
        assert(b@.subrange(0, nb as int) =~= b@);
    }
    let mut i: usize = 0;
    while i < na && i < nb
        invariant
            na == a@.len(),
            nb == b@.len(),
            0 <= i <= na,
            0 <= i <= nb,
            lex_le(a@, b@) == lex_le(
                a@.subrange(i as int, na as int),
                b@.subrange(i as int, nb as int),
            ),
        decreases na - i,
    {
        let ca = a.get_char(i);
        let cb = b.get_char(i);
        proof {
            let sa = a@.subrange(i as int, na as int);
            let sb = b@.subrange(i as int, nb as int);
            assert(sa.drop_first() =~= a@.subrange(i + 1, na as int));
            assert(sb.drop_first() =~= b@.subrange(i + 1, nb as int));
        }
        if (ca as u32) < (cb as u32) {
            return true;
        }
        if (ca as u32) > (cb as u32) {
            return false;
        }
        i = i + 1;
    }
    proof {
        let sa = a@.subrange(i as int, na as int);
        let sb = b@.subrange(i as int, nb as int);
        if i == na {
            assert(sa.len() == 0);
        } else {
            assert(sb.len() == 0 && sa.len() > 0);
        }
    }
    i == na
}

/// Sorts a directory listing into apply order: ascending filename order,
/// keeping exactly the given files.
pub fn sort_files(files: Vec<SqlFile>) -> (r: Vec<SqlFile>)
    ensures
        sorted_by(file_names(r@), lex_rel()),
        r@.to_multiset() == files@.to_multiset(),
{
    broadcast use group_to_multiset_ensures, to_multiset_insert, to_multiset_remove,
        vstd::multiset::group_multiset_axioms;

    let mut rest = files;
    let mut out: Vec<SqlFile> = Vec::new();
    let ghost all = rest@;
    proof {
        assert(out@.to_multiset().add(rest@.to_multiset()) =~= all.to_multiset());
    }
    while rest.len() > 0
        invariant
            out@.to_multiset().add(rest@.to_multiset()) == all.to_multiset(),
            sorted_by(file_names(out@), lex_rel()),
        decreases rest@.len(),
    {
        let ghost old_rest = rest@;
        let f = rest.remove(0);
        let ghost prev = out@;
        let mut k: usize = 0;
        while k < out.len() && str_lex_le(out[k].filename.as_str(), f.filename.as_str())
            invariant
                out@ == prev,
                0 <= k <= out@.len(),
                forall|j: int| 0 <= j < k ==> lex_le(#[trigger] out@[j].filename@, f.filename@),
            decreases out@.len() - k,
        {
            k = k + 1;
        }
        proof {
            if k < prev.len() {
                lemma_lex_connected(prev[k as int].filename@, f.filename@);
            }
        }
        out.insert(k, f);
        proof {
            let names = file_names(out@);
            assert forall|x: int, y: int| 0 <= x < y < names.len() implies lex_rel()(
                names[x],
                names[y],
            ) by {
                let nx = out@[x].filename@;
                let ny = out@[y].filename@;
                let pn = file_names(prev);
                if x == k {
                    assert(out@[y] == prev[y - 1]);
                    assert(lex_le(f.filename@, prev[k as int].filename@));
                    if y > k + 1 {
                        assert(lex_rel()(pn[k as int], pn[y - 1]));
                        lemma_lex_transitive(
                            f.filename@,
                            prev[k as int].filename@,
                            ny,
                        );
                    }
                } else if y == k {
                    assert(out@[x] == prev[x]);
                } else if x < k && y < k {
                    assert(out@[x] == prev[x] && out@[y] == prev[y]);
                    assert(lex_rel()(pn[x], pn[y]));
                } else if x < k && y > k {
                    assert(out@[x] == prev[x] && out@[y] == prev[y - 1]);
                    assert(lex_rel()(pn[x], pn[y - 1]));
                } else {
                    assert(out@[x] == prev[x - 1] && out@[y] == prev[y - 1]);
                    assert(lex_rel()(pn[x - 1], pn[y - 1]));
                }
                assert(lex_le(nx, ny));
            }
            assert(old_rest[0] == f);
            old_rest.to_multiset_ensures();
            assert(old_rest.contains(f));
            assert(old_rest.to_multiset().count(f) > 0);
            to_multiset_insert(prev, k as int, f);
            to_multiset_remove(old_rest, 0);
            assert(out@ == prev.insert(k as int, f));
            assert(rest@ == old_rest.remove(0));
            assert(out@.to_multiset().add(rest@.to_multiset()) =~= all.to_multiset());
        }
    }
    out
}

/// Law: the apply order is deterministic — any two orderings of one
/// multiset of filenames that are both sorted are the same listing.
pub proof fn lemma_apply_order_deterministic(a: Seq<Seq<char>>, b: Seq<Seq<char>>)
    requires
        sorted_by(a, lex_rel()),
        sorted_by(b, lex_rel()),
        a.to_multiset() == b.to_multiset(),
    ensures
        a == b,
{
    lemma_lex_total_ordering();
    lemma_sorted_unique(a, b, lex_rel());
}

} // verus!
