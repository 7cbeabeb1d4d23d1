use vstd::prelude::*;
use vstd::relations::{sorted_by, total_ordering};
use vstd::string::StrSliceExecFns;

verus! {

/// Codepoint-wise lexicographic "less than or equal" on character sequences:
/// a deterministic, locale-independent total order on filenames.
pub open spec fn lex_le(a: Seq<char>, b: Seq<char>) -> bool
    decreases a.len(),
{
    if a.len() == 0 {
        true
    } else if b.len() == 0 {
        false
    } else if (a[0] as u32) < (b[0] as u32) {
        true
    } else if a[0] == b[0] {
        lex_le(a.drop_first(), b.drop_first())
    } else {
        false
    }
}

/// The lexicographic order as a relation value, for use with vstd's
/// ordering and sorting lemmas.
pub open spec fn lex_leq() -> spec_fn(Seq<char>, Seq<char>) -> bool {
    |a: Seq<char>, b: Seq<char>| lex_le(a, b)
}

/// Whether a list of names is in lexicographic order.
pub open spec fn sorted_names(names: Seq<Seq<char>>) -> bool {
    forall|i: int, j: int|
        0 <= i < j < names.len() ==> #[trigger] lex_le(names[i], names[j])
}

/// The character sequences of a list of names.
pub open spec fn name_views(files: Seq<String>) -> Seq<Seq<char>> {
    files.map_values(|f: String| f@)
}

/// Characters with the same codepoint are the same character.
proof fn lemma_char_eq(c1: char, c2: char)
    requires
        c1 as u32 == c2 as u32,
    ensures
        c1 == c2,
{
}

pub proof fn lemma_lex_refl(a: Seq<char>)
    ensures
        lex_le(a, a),
    decreases a.len(),
{
    if a.len() > 0 {
        lemma_lex_refl(a.drop_first());
    }
}

pub proof fn lemma_lex_total(a: Seq<char>, b: Seq<char>)
    ensures
        lex_le(a, b) || lex_le(b, a),
    decreases a.len(),
{
    if a.len() == 0 {
    } else if b.len() == 0 {
    } else {
        let x = a[0] as u32;
        let y = b[0] as u32;
        if x < y {
            assert(lex_le(a, b));
        } else if y < x {
            assert(lex_le(b, a));
        } else {
            lemma_char_eq(a[0], b[0]);
            assert(a[0] == b[0]);
            lemma_lex_total(a.drop_first(), b.drop_first());
        }
    }
}

pub proof fn lemma_lex_antisym(a: Seq<char>, b: Seq<char>)
    requires
        lex_le(a, b),
        lex_le(b, a),
    ensures
        a == b,
    decreases a.len(),
{
    if a.len() == 0 {
        assert(b.len() == 0);
        assert(a =~= b);
    } else {
        assert(b.len() > 0);
        assert(a[0] == b[0]);
        lemma_lex_antisym(a.drop_first(), b.drop_first());
        assert(a.drop_first().len() == b.drop_first().len());
        assert(a.len() == b.len());
        assert forall|i: int| 0 <= i < a.len() implies a[i] == b[i] by {
            if i > 0 {
                assert(a[i] == a.drop_first()[i - 1]);
                assert(b[i] == b.drop_first()[i - 1]);
            }
        }
        assert(a =~= b);
    }
}

pub proof fn lemma_lex_trans(a: Seq<char>, b: Seq<char>, c: Seq<char>)
    requires
        lex_le(a, b),
        lex_le(b, c),
    ensures
        lex_le(a, c),
    decreases a.len(),
{
    if a.len() > 0 {
        assert(b.len() > 0);
        assert(c.len() > 0);
        if a[0] == b[0] && b[0] == c[0] {
            lemma_lex_trans(a.drop_first(), b.drop_first(), c.drop_first());
        }
    }
}

/// The lexicographic order is a total order.
pub proof fn lemma_lex_total_ordering()
    ensures
        total_ordering(lex_leq()),
{
    let leq = lex_leq();
    assert forall|a: Seq<char>| #[trigger] leq(a, a) by {
        lemma_lex_refl(a);
    }
    assert forall|a: Seq<char>, b: Seq<char>| #[trigger] leq(a, b) && #[trigger] leq(b, a)
        implies a == b by {
        lemma_lex_antisym(a, b);
    }
    assert forall|a: Seq<char>, b: Seq<char>, c: Seq<char>|
        #[trigger] leq(a, b) && #[trigger] leq(b, c) implies leq(a, c) by {
        lemma_lex_trans(a, b, c);
    }
    assert forall|a: Seq<char>, b: Seq<char>| #[trigger] leq(a, b) || #[trigger] leq(b, a) by {
        lemma_lex_total(a, b);
    }
}

/// Law: a sorted list of names is determined by which names it holds —
/// two lexicographically sorted lists with the same multiset of names are
/// the same list.
pub proof fn lemma_sorted_names_unique(x: Seq<Seq<char>>, y: Seq<Seq<char>>)
    requires
        sorted_names(x),
        sorted_names(y),
        x.to_multiset() == y.to_multiset(),
    ensures
        x == y,
{
    lemma_lex_total_ordering();
    assert(sorted_by(x, lex_leq())) by {
        assert forall|i: int, j: int| 0 <= i < j < x.len() implies lex_leq()(x[i], x[j]) by {
            assert(lex_le(x[i], x[j]));
        }
    }
    assert(sorted_by(y, lex_leq())) by {
        assert forall|i: int, j: int| 0 <= i < j < y.len() implies lex_leq()(y[i], y[j]) by {
            assert(lex_le(y[i], y[j]));
        }
    }
    vstd::seq_lib::lemma_sorted_unique(x, y, lex_leq());
    assert(x =~= y);
}

/// When two sequences agree on their first `i` characters, their order is
/// decided by what remains.
proof fn lemma_lex_skip(a: Seq<char>, b: Seq<char>, i: int)
    requires
        0 <= i <= a.len(),
        i <= b.len(),
        forall|j: int| 0 <= j < i ==> a[j] == b[j],
    ensures
        lex_le(a, b) == lex_le(a.skip(i), b.skip(i)),
    decreases i,
{
    if i > 0 {
        assert(a[0] == b[0]);
        lemma_lex_skip(a.drop_first(), b.drop_first(), i - 1);
        assert(a.drop_first().skip(i - 1) =~= a.skip(i));
        assert(b.drop_first().skip(i - 1) =~= b.skip(i));
    } else {
        assert(a.skip(0) =~= a);
        assert(b.skip(0) =~= b);
    }
}

/// Decides the lexicographic order of two names.
pub fn str_le(a: &str, b: &str) -> (r: bool)
    ensures
        r == lex_le(a@, b@),
{
    let na = a.unicode_len();
    let nb = b.unicode_len();
    let mut i: usize = 0;
    while i < na && i < nb
        invariant
            na == a@.len(),
            nb == b@.len(),
            i <= na,
            i <= nb,
            forall|j: int| 0 <= j < i ==> a@[j] == b@[j],
        decreases na - i,
    {
        let ca = a.get_char(i) as u32;
        let cb = b.get_char(i) as u32;
        if ca < cb {
            proof {
                lemma_lex_skip(a@, b@, i as int);
            }
            return true;
        }
        if cb < ca {
            proof {
                lemma_lex_skip(a@, b@, i as int);
            }
            return false;
        }
        proof {
            assert(a@[i as int] == b@[i as int]);
        }
        i += 1;
    }
    proof {
        lemma_lex_skip(a@, b@, i as int);
    }
    na <= nb
}

/// Whether a filename carries the recognized image extension `.png`.
/// A bare `.png`, whose stem is empty, does not count.
pub open spec fn is_png(s: Seq<char>) -> bool {
    s.len() > 4 && s[s.len() - 4] == '.' && s[s.len() - 3] == 'p' && s[s.len() - 2] == 'n'
        && s[s.len() - 1] == 'g'
}

/// The recognized-extension test as a relation value.
pub open spec fn png_pred() -> spec_fn(Seq<char>) -> bool {
    |e: Seq<char>| is_png(e)
}

/// The filenames with the recognized extension, in their given order.
pub open spec fn png_names(es: Seq<Seq<char>>) -> Seq<Seq<char>> {
    es.filter(png_pred())
}

/// Decides whether a filename carries the recognized extension.
pub fn is_png_file(s: &str) -> (r: bool)
    ensures
        r == is_png(s@),
{
    let n = s.unicode_len();
    if n <= 4 {
        false
    } else {
        s.get_char(n - 4) == '.' && s.get_char(n - 3) == 'p' && s.get_char(n - 2) == 'n'
            && s.get_char(n - 1) == 'g'
    }
}

/// Filtering one more element appends it exactly when it matches.
proof fn lemma_filter_push(s: Seq<Seq<char>>, pred: spec_fn(Seq<char>) -> bool, a: Seq<char>)
    ensures
        s.push(a).filter(pred) == if pred(a) {
            s.filter(pred).push(a)
        } else {
            s.filter(pred)
        },
{
    reveal_with_fuel(Seq::<_>::filter, 2);
    assert(s.push(a).drop_last() =~= s);
    assert(s.push(a).last() == a);
}

/// Keeps exactly the entries with the recognized extension, in order.
pub fn filter_png(entries: &Vec<String>) -> (r: Vec<String>)
    ensures
        name_views(r@) == png_names(name_views(entries@)),
{
    let mut r: Vec<String> = Vec::new();
    proof {
        reveal_with_fuel(Seq::<_>::filter, 1);
        assert(name_views(r@) =~= name_views(entries@).take(0).filter(png_pred()));
    }
    let mut i: usize = 0;
    while i < entries.len()
        invariant
            i <= entries@.len(),
            name_views(r@) == name_views(entries@).take(i as int).filter(png_pred()),
        decreases entries@.len() - i,
    {
        let ghost prev = name_views(r@);
        let e = &entries[i];
        let keep = is_png_file(e.as_str());
        if keep {
            r.push(e.clone());
        }
        proof {
            let nv = name_views(entries@);
            assert(nv.take(i as int + 1) =~= nv.take(i as int).push(entries@[i as int]@));
            lemma_filter_push(nv.take(i as int), png_pred(), entries@[i as int]@);
            if keep {
                assert(name_views(r@) =~= prev.push(entries@[i as int]@));
            }
            assert(name_views(r@) =~= nv.take(i as int + 1).filter(png_pred()));
        }
        i += 1;
    }
    proof {
        assert(name_views(entries@).take(entries@.len() as int) =~= name_views(entries@));
    }
    r
}

/// Inserting an element anywhere adds exactly it to the multiset.
proof fn lemma_to_multiset_insert<A>(s: Seq<A>, i: int, a: A)
    requires
        0 <= i <= s.len(),
    ensures
        s.insert(i, a).to_multiset() == s.to_multiset().insert(a),
{
    broadcast use vstd::seq_lib::group_to_multiset_ensures;
    broadcast use vstd::multiset::group_multiset_axioms;

    let t = s.subrange(0, i);
    let u = s.subrange(i, s.len() as int);
    vstd::seq_lib::lemma_multiset_commutative(t.push(a), u);
    vstd::seq_lib::lemma_multiset_commutative(t, u);
    assert(s =~= t + u);
    assert(t.push(a).to_multiset() =~= t.to_multiset().insert(a));
    assert(t.to_multiset().insert(a).add(u.to_multiset()) =~= t.to_multiset().add(
        u.to_multiset(),
    ).insert(a));
}

/// Sorts names into lexicographic order, keeping exactly the given names.
pub fn sort_files(input: Vec<String>) -> (r: Vec<String>)
    ensures
        sorted_names(name_views(r@)),
        name_views(r@).to_multiset() == name_views(input@).to_multiset(),
        r@.len() == input@.len(),
{
    broadcast use vstd::seq_lib::group_to_multiset_ensures;

    let mut r: Vec<String> = Vec::new();
    proof {
        assert(name_views(r@) =~= name_views(input@.take(0)));
        assert(name_views(input@).take(0) =~= name_views(input@.take(0)));
    }
    let mut i: usize = 0;
    while i < input.len()
        invariant
            i <= input@.len(),
            r@.len() == i,
            sorted_names(name_views(r@)),
            name_views(r@).to_multiset() == name_views(input@.take(i as int)).to_multiset(),
        decreases input@.len() - i,
    {
        broadcast use vstd::seq_lib::group_to_multiset_ensures;

        let e = input[i].clone();
        let mut pos: usize = 0;
        while pos < r.len() && str_le(r[pos].as_str(), e.as_str())
            invariant
                pos <= r@.len(),
                forall|k: int| 0 <= k < pos ==> lex_le(name_views(r@)[k], e@),
            decreases r@.len() - pos,
        {
            pos += 1;
        }
        proof {
            if pos < r@.len() {
                lemma_lex_total(name_views(r@)[pos as int], e@);
                assert(lex_le(e@, name_views(r@)[pos as int]));
            }
        }
        let ghost rs = r@;
        r.insert(pos, e);
        proof {
            let nv_old = name_views(rs);
            let nv_new = name_views(r@);
            assert(nv_new =~= nv_old.insert(pos as int, e@)) by {
                rs.insert_ensures(pos as int, e);
                nv_old.insert_ensures(pos as int, e@);
            }
            nv_old.insert_ensures(pos as int, e@);
            assert forall|x: int, y: int| 0 <= x < y < nv_new.len() implies lex_le(
                nv_new[x],
                nv_new[y],
            ) by {
                let p = pos as int;
                if y < p {
                    assert(lex_le(nv_old[x], nv_old[y]));
                } else if x < p && y == p {
                    assert(lex_le(nv_old[x], e@));
                } else if x < p && y > p {
                    if x == y - 1 {
                        assert(lex_le(nv_old[x], e@));
                        assert(lex_le(e@, nv_old[y - 1]));
                        lemma_lex_trans(nv_old[x], e@, nv_old[y - 1]);
                    } else {
                        assert(lex_le(nv_old[x], nv_old[y - 1]));
                    }
                } else if x == p {
                    if y - 1 == p {
                        assert(lex_le(e@, nv_old[y - 1]));
                    } else {
                        assert(lex_le(e@, nv_old[p]));
                        assert(lex_le(nv_old[p], nv_old[y - 1]));
                        lemma_lex_trans(e@, nv_old[p], nv_old[y - 1]);
                    }
                } else {
                    assert(lex_le(nv_old[x - 1], nv_old[y - 1]));
                }
            }
            lemma_to_multiset_insert(nv_old, pos as int, e@);
            assert(name_views(input@.take(i as int + 1)) =~= name_views(input@.take(i as int)).push(
                input@[i as int]@,
            ));
        }
        i += 1;
    }
    proof {
        assert(input@.take(input@.len() as int) =~= input@);
    }
    r
}

} // verus!
