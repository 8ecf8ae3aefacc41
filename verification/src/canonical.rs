use vstd::prelude::*;

use crate::text::{
    chars_to_string, lemma_dv_index, lemma_lex_sorted_same_multiset, lemma_lex_total_ordering,
    lemma_sorted_by_is_lex_sorted, lex_rel, sorted_copy, to_char_vec,
};
use crate::types::{index_view, HasteMap, RecordView};

verus! {

/// The pieces joined with the separator between them, as in `a|b|c`.
pub open spec fn joined(l: Seq<Seq<char>>, sep: char) -> Seq<char>
    decreases l.len(),
{
    if l.len() == 0 {
        Seq::empty()
    } else if l.len() == 1 {
        l[0]
    } else {
        l[0] + seq![sep] + joined(l.drop_first(), sep)
    }
}

/// The canonical line of one record: the path, a `|`, and the dependencies
/// freshly sorted and joined with `|`.
pub open spec fn canonical_line(r: RecordView) -> Seq<char> {
    r.0 + seq!['|'] + joined(r.1.sort_by(lex_rel()), '|')
}

/// The canonical lines of all records, in record order.
pub open spec fn canonical_lines(rs: Seq<RecordView>) -> Seq<Seq<char>> {
    rs.map_values(|r: RecordView| canonical_line(r))
}

/// The canonical text of an index: every record's line, the lines sorted
/// lexicographically, joined with newlines.
pub open spec fn canonical_string(rs: Seq<RecordView>) -> Seq<char> {
    joined(canonical_lines(rs).sort_by(lex_rel()), '\n')
}

/// Joining after appending one more piece.
proof fn lemma_joined_push(l: Seq<Seq<char>>, x: Seq<char>, sep: char)
    ensures
        joined(l.push(x), sep) == if l.len() == 0 {
            x
        } else {
            joined(l, sep) + seq![sep] + x
        },
    decreases l.len(),
{
    if l.len() == 0 {
        assert(l.push(x)[0] == x);
        assert(joined(l.push(x), sep) == x);
    } else if l.len() == 1 {
        assert(l.push(x).drop_first() =~= seq![x]);
        assert(joined(seq![x], sep) == x);
    } else {
        lemma_joined_push(l.drop_first(), x, sep);
        assert(l.push(x).drop_first() =~= l.drop_first().push(x));
        assert(joined(l.push(x), sep) == l[0] + seq![sep] + joined(l.drop_first().push(x), sep));
    }
}

/// Appends the characters of `piece` to `out`.
fn append_chars(out: &mut Vec<char>, piece: &Vec<char>)
    ensures
        final(out)@ == old(out)@ + piece@,
{
    let mut k: usize = 0;
    while k < piece.len()
        invariant
            k <= piece@.len(),
            out@ == old(out)@ + piece@.subrange(0, k as int),
        decreases piece@.len() - k,
    {
        out.push(piece[k]);
        proof {
            assert(old(out)@ + piece@.subrange(0, k as int) + seq![piece@[k as int]] =~= old(out)@
                + piece@.subrange(0, k as int + 1));
        }
        k += 1;
    }
    proof {
        assert(old(out)@ + piece@.subrange(0, piece@.len() as int) =~= old(out)@ + piece@);
    }
}

/// Joins the pieces with the separator between them.
fn join_exec(l: &Vec<Vec<char>>, sep: char) -> (out: Vec<char>)
    ensures
        out@ == joined(l.deep_view(), sep),
{
    let mut out: Vec<char> = Vec::new();
    let mut k: usize = 0;
    proof {
        assert(l.deep_view().subrange(0, 0) =~= Seq::<Seq<char>>::empty());
    }
    while k < l.len()
        invariant
            k <= l@.len(),
            out@ == joined(l.deep_view().subrange(0, k as int), sep),
        decreases l@.len() - k,
    {
        let ghost pre = l.deep_view().subrange(0, k as int);
        if k > 0 {
            out.push(sep);
        }
        append_chars(&mut out, &l[k]);
        proof {
            lemma_dv_index(*l, k as int);
            lemma_joined_push(pre, l.deep_view()[k as int], sep);
            assert(pre.push(l.deep_view()[k as int]) =~= l.deep_view().subrange(0, k as int + 1));
            if k > 0 {
                assert(joined(pre, sep) + seq![sep] + l@[k as int]@ =~= out@);
            }
        }
        k += 1;
    }
    proof {
        assert(l.deep_view().subrange(0, l@.len() as int) =~= l.deep_view());
    }
    out
}

/// Renders an index as deterministic text: one line per record in the form
/// `path|dep1|dep2|...` with the dependencies freshly sorted, all lines
/// sorted, joined with newlines. Two indexes holding the same records in any
/// order render to the same text.
pub fn get_deterministic_hastemap_string(haste_map: HasteMap) -> (res: String)
    ensures
        res@ == canonical_string(index_view(haste_map@)),
{
    let ghost iv = index_view(haste_map@);
    let mut lines: Vec<Vec<char>> = Vec::new();
    let mut i: usize = 0;
    proof {
        assert(lines.deep_view() =~= canonical_lines(iv).subrange(0, 0));
    }
    while i < haste_map.len()
        invariant
            i <= haste_map@.len(),
            iv == index_view(haste_map@),
            lines.deep_view() == canonical_lines(iv).subrange(0, i as int),
        decreases haste_map@.len() - i,
    {
        let deps = &haste_map[i].dependencies;
        let mut dep_chars: Vec<Vec<char>> = Vec::new();
        let mut k: usize = 0;
        proof {
            assert(dep_chars.deep_view() =~= haste_map@[i as int].dependencies.deep_view().subrange(
                0,
                0,
            ));
        }
        while k < deps.len()
            invariant
                k <= deps@.len(),
                deps == &haste_map@[i as int].dependencies,
                dep_chars.deep_view() == haste_map@[i as int].dependencies.deep_view().subrange(
                    0,
                    k as int,
                ),
            decreases deps@.len() - k,
        {
            let ghost dv = haste_map@[i as int].dependencies.deep_view();
            let piece = to_char_vec(deps[k].as_str());
            let ghost pv = piece@;
            let ghost dc0 = dep_chars;
            dep_chars.push(piece);
            proof {
                assert(dc0.deep_view().len() == dc0@.len());
                assert(dc0@.len() == k as int);
                assert forall|t: int| 0 <= t < dep_chars.deep_view().len() implies
                    dep_chars.deep_view()[t] == dc0.deep_view().push(pv)[t] by {
                    lemma_dv_index(dep_chars, t);
                    if t < k as int {
                        lemma_dv_index(dc0, t);
                    }
                }
                assert(dep_chars.deep_view() =~= dc0.deep_view().push(pv));
                crate::text::lemma_dv_index_str(haste_map@[i as int].dependencies, k as int);
                assert(dv.subrange(0, k as int).push(dv[k as int]) =~= dv.subrange(
                    0,
                    k as int + 1,
                ));
            }
            k += 1;
        }
        proof {
            assert(haste_map@[i as int].dependencies.deep_view().subrange(
                0,
                deps@.len() as int,
            ) =~= haste_map@[i as int].dependencies.deep_view());
        }
        let sorted_deps = sorted_copy(dep_chars);
        proof {
            lemma_lex_total_ordering();
            let want = haste_map@[i as int].dependencies.deep_view().sort_by(lex_rel());
            haste_map@[i as int].dependencies.deep_view().lemma_sort_by_ensures(lex_rel());
            lemma_sorted_by_is_lex_sorted(want);
            lemma_lex_sorted_same_multiset(sorted_deps.deep_view(), want);
        }
        let mut line = to_char_vec(haste_map[i].path.as_str());
        line.push('|');
        let tail = join_exec(&sorted_deps, '|');
        append_chars(&mut line, &tail);
        proof {
            assert(iv[i as int] == haste_map@[i as int]@);
            assert(line@ =~= canonical_line(iv[i as int]));
        }
        let ghost lv = line@;
        let ghost ls0 = lines;
        lines.push(line);
        proof {
            assert(ls0.deep_view().len() == ls0@.len());
            assert(ls0@.len() == i as int);
            assert forall|t: int| 0 <= t < lines.deep_view().len() implies lines.deep_view()[t]
                == ls0.deep_view().push(lv)[t] by {
                lemma_dv_index(lines, t);
                if t < i as int {
                    lemma_dv_index(ls0, t);
                }
            }
            assert(lines.deep_view() =~= ls0.deep_view().push(lv));
            assert(canonical_lines(iv)[i as int] == canonical_line(iv[i as int]));
            assert(canonical_lines(iv).subrange(0, i as int).push(canonical_lines(iv)[i as int])
                =~= canonical_lines(iv).subrange(0, i as int + 1));
        }
        i += 1;
    }
    proof {
        assert(canonical_lines(iv).subrange(0, haste_map@.len() as int) =~= canonical_lines(iv));
    }
    let sorted_lines = sorted_copy(lines);
    proof {
        lemma_lex_total_ordering();
        let want = canonical_lines(iv).sort_by(lex_rel());
        canonical_lines(iv).lemma_sort_by_ensures(lex_rel());
        lemma_sorted_by_is_lex_sorted(want);
        lemma_lex_sorted_same_multiset(sorted_lines.deep_view(), want);
    }
    let joined_chars = join_exec(&sorted_lines, '\n');
    chars_to_string(&joined_chars)
}

/// Records with equal lines keep multiset equality of lines under mapping.
proof fn lemma_lines_multiset(a: Seq<RecordView>, b: Seq<RecordView>)
    requires
        a.to_multiset() == b.to_multiset(),
    ensures
        canonical_lines(a).to_multiset() == canonical_lines(b).to_multiset(),
    decreases a.len(),
{
    broadcast use vstd::seq_lib::group_to_multiset_ensures;
    broadcast use vstd::multiset::group_multiset_axioms;

    if a.len() == 0 {
        assert(a.to_multiset().len() == 0);
        assert(b.len() == 0);
        assert(canonical_lines(a) =~= Seq::<Seq<char>>::empty());
        assert(canonical_lines(b) =~= Seq::<Seq<char>>::empty());
    } else {
        let x = a[0];
        assert(a.contains(x));
        assert(a.to_multiset().count(x) > 0);
        assert(b.to_multiset().count(x) > 0);
        assert(b.contains(x));
        let j = choose|j: int| 0 <= j < b.len() && b[j] == x;
        let a1 = a.drop_first();
        let b1 = b.remove(j);
        assert(a1 =~= a.remove(0));
        assert(a1.to_multiset() =~= a.to_multiset().remove(x));
        assert(b1.to_multiset() =~= b.to_multiset().remove(x));
        lemma_lines_multiset(a1, b1);
        assert(canonical_lines(a1) =~= canonical_lines(a).remove(0)) by {
            a.remove_ensures(0);
            canonical_lines(a).remove_ensures(0);
        }
        assert(canonical_lines(b1) =~= canonical_lines(b).remove(j)) by {
            b.remove_ensures(j);
            canonical_lines(b).remove_ensures(j);
        }
        assert(canonical_lines(a).remove(0).to_multiset() =~= canonical_lines(a).to_multiset()
            .remove(canonical_lines(a)[0]));
        assert(canonical_lines(b).remove(j).to_multiset() =~= canonical_lines(b).to_multiset()
            .remove(canonical_lines(b)[j]));
        assert(canonical_lines(a)[0] == canonical_line(x));
        assert(canonical_lines(b)[j] == canonical_line(x));
        assert(canonical_lines(a).to_multiset().count(canonical_line(x)) > 0);
        assert(canonical_lines(b).to_multiset().count(canonical_line(x)) > 0);
        assert(canonical_lines(a).to_multiset() =~= canonical_lines(a).to_multiset().remove(
            canonical_line(x),
        ).insert(canonical_line(x)));
        assert(canonical_lines(b).to_multiset() =~= canonical_lines(b).to_multiset().remove(
            canonical_line(x),
        ).insert(canonical_line(x)));
    }
}

/// Law: the canonical text does not depend on the order of the records.
/// Two indexes holding the same multiset of records — in particular, any
/// permutation of one index — canonicalize to the same text.
pub proof fn lemma_canonical_order_independent(a: Seq<RecordView>, b: Seq<RecordView>)
    requires
        a.to_multiset() == b.to_multiset(),
    ensures
        canonical_string(a) == canonical_string(b),
{
    lemma_lines_multiset(a, b);
    lemma_lex_total_ordering();
    canonical_lines(a).lemma_sort_by_ensures(lex_rel());
    canonical_lines(b).lemma_sort_by_ensures(lex_rel());
    vstd::seq_lib::lemma_sorted_unique(
        canonical_lines(a).sort_by(lex_rel()),
        canonical_lines(b).sort_by(lex_rel()),
        lex_rel(),
    );
}

} // verus!
