//! Merging several templates into one text, dropping repeated patterns while
//! keeping every comment and blank line.
use vstd::prelude::*;

use crate::text::{
    chars_of, lemma_string_views_push, lines, lines_from, lines_spec, strip_cr, string_views, trim,
    trimmed, views,
};

verus! {

/// A trimmed line is structural when it is blank or a comment.
pub open spec fn is_structural(t: Seq<char>) -> bool {
    t.len() == 0 || t[0] == '#'
}

/// The lines of all texts, in order.
pub open spec fn all_lines(ts: Seq<Seq<char>>) -> Seq<Seq<char>>
    decreases ts.len(),
{
    if ts.len() == 0 {
        seq![]
    } else {
        all_lines(ts.drop_last()) + lines_spec(ts.last())
    }
}

/// Whether line `l`, coming after `prev`, is kept: a structural line always
/// is, a pattern line only when no earlier line has the same trimmed text.
pub open spec fn keeps(prev: Seq<Seq<char>>, l: Seq<char>) -> bool {
    is_structural(trimmed(l)) || forall|j: int| 0 <= j < prev.len() ==> trimmed(prev[j]) != trimmed(l)
}

/// The kept lines, each untrimmed and followed by a newline.
pub open spec fn merged(ls: Seq<Seq<char>>) -> Seq<char>
    decreases ls.len(),
{
    if ls.len() == 0 {
        seq![]
    } else {
        merged(ls.drop_last()) + if keeps(ls.drop_last(), ls.last()) {
            ls.last().push('\n')
        } else {
            seq![]
        }
    }
}

/// The merge of the texts `ts`, in order.
pub open spec fn merge_spec(ts: Seq<Seq<char>>) -> Seq<char> {
    merged(all_lines(ts))
}

/// Whether `x` is among `v`.
fn contains_string(v: &Vec<String>, x: &String) -> (r: bool)
    ensures
        r == string_views(v@).contains(x@),
{
    let mut i: usize = 0;
    while i < v.len()
        invariant
            i <= v.len(),
            forall|j: int| 0 <= j < i ==> v@[j]@ != x@,
        decreases v.len() - i,
    {
        if v[i] == *x {
            assert(string_views(v@)[i as int] == x@);
            return true;
        }
        i = i + 1;
    }
    assert forall|j: int| 0 <= j < string_views(v@).len() implies string_views(v@)[j] != x@ by {
        assert(string_views(v@)[j] == v@[j]@);
    }
    false
}

/// Merges templates in order: comment and blank lines are all kept; a pattern
/// line is kept only the first time its trimmed text occurs. Every kept line
/// is written as it was, followed by a newline.
pub fn merge_templates(templates: &[&str]) -> (r: String)
    ensures
        r@ == merge_spec(views(templates@)),
        templates@.len() == 0 ==> r@.len() == 0,
{
    let mut out = String::new();
    let mut seen: Vec<String> = Vec::new();
    let ghost ts = views(templates@);
    let ghost mut done: Seq<Seq<char>> = seq![];
    proof {
        reveal_strlit("\n");
        assert(ts.take(0) =~= Seq::<Seq<char>>::empty());
    }
    let mut t: usize = 0;
    while t < templates.len()
        invariant
            t <= templates.len(),
            ts == views(templates@),
            done == all_lines(ts.take(t as int)),
            out@ == merged(done),
            "\n"@ == seq!['\n'],
            forall|x: Seq<char>|
                #[trigger] string_views(seen@).contains(x) <==> exists|i: int|
                    0 <= i < done.len() && trimmed(done[i]) == x && !is_structural(x),
        decreases templates.len() - t,
    {
        let ls = lines(templates[t]);
        let ghost base = done;
        assert(views(ls@).take(0) =~= Seq::<Seq<char>>::empty());
        assert(base + views(ls@).take(0) =~= base);
        let mut j: usize = 0;
        while j < ls.len()
            invariant
                j <= ls.len(),
                done == base + views(ls@).take(j as int),
                out@ == merged(done),
                "\n"@ == seq!['\n'],
                forall|x: Seq<char>|
                    #[trigger] string_views(seen@).contains(x) <==> exists|i: int|
                        0 <= i < done.len() && trimmed(done[i]) == x && !is_structural(x),
            decreases ls.len() - j,
        {
            let line = ls[j];
            let tr = trim(line);
            let tc = chars_of(tr);
            let structural = tc.len() == 0 || tc[0] == '#';
            let ghost prev = done;
            proof {
                done = done.push(line@);
                assert(done.drop_last() == prev);
                assert(views(ls@)[j as int] == line@);
                assert(base + views(ls@).take(j + 1) =~= done);
            }
            if structural {
                out.append(line);
                out.append("\n");
                proof {
                    assert forall|x: Seq<char>| #[trigger]
                        string_views(seen@).contains(x) implies exists|i: int|
                        0 <= i < done.len() && trimmed(done[i]) == x && !is_structural(x) by {
                        let i = choose|i: int|
                            0 <= i < prev.len() && trimmed(prev[i]) == x && !is_structural(x);
                        assert(done[i] == prev[i]);
                    }
                    assert forall|x: Seq<char>|
                        exists|i: int|
                            0 <= i < done.len() && trimmed(done[i]) == x && !is_structural(
                                x,
                            ) implies #[trigger] string_views(seen@).contains(x) by {
                        let i = choose|i: int|
                            0 <= i < done.len() && trimmed(done[i]) == x && !is_structural(x);
                        assert(i < prev.len());
                        assert(prev[i] == done[i]);
                    }
                }
            } else {
                let owned = tr.to_owned();
                let again = contains_string(&seen, &owned);
                proof {
                    if again {
                        let i = choose|i: int|
                            0 <= i < prev.len() && trimmed(prev[i]) == tr@ && !is_structural(tr@);
                        assert(!keeps(prev, line@));
                    } else {
                        assert(keeps(prev, line@));
                    }
                }
                if !again {
                    let ghost seen0 = seen@;
                    seen.push(owned);
                    out.append(line);
                    out.append("\n");
                    proof {
                        lemma_string_views_push(seen0, owned);
                        assert forall|x: Seq<char>| #[trigger]
                            string_views(seen@).contains(x) implies exists|i: int|
                            0 <= i < done.len() && trimmed(done[i]) == x && !is_structural(x) by {
                            if x == tr@ {
                                assert(done[prev.len() as int] == line@);
                            } else {
                                assert(string_views(seen0).contains(x));
                                let i = choose|i: int|
                                    0 <= i < prev.len() && trimmed(prev[i]) == x
                                        && !is_structural(x);
                                assert(done[i] == prev[i]);
                            }
                        }
                        assert forall|x: Seq<char>|
                            exists|i: int|
                                0 <= i < done.len() && trimmed(done[i]) == x && !is_structural(
                                    x,
                                ) implies #[trigger] string_views(seen@).contains(x) by {
                            let i = choose|i: int|
                                0 <= i < done.len() && trimmed(done[i]) == x && !is_structural(x);
                            let sv = string_views(seen@);
                            if i < prev.len() {
                                assert(prev[i] == done[i]);
                                assert(string_views(seen0).contains(x));
                                let k = choose|k: int|
                                    0 <= k < string_views(seen0).len() && string_views(seen0)[k]
                                        == x;
                                assert(sv[k] == x);
                            } else {
                                assert(sv[sv.len() - 1] == x);
                            }
                        }
                    }
                } else {
                    proof {
                        assert forall|x: Seq<char>| #[trigger]
                            string_views(seen@).contains(x) implies exists|i: int|
                            0 <= i < done.len() && trimmed(done[i]) == x && !is_structural(x) by {
                            let i = choose|i: int|
                                0 <= i < prev.len() && trimmed(prev[i]) == x && !is_structural(x);
                            assert(done[i] == prev[i]);
                        }
                        assert forall|x: Seq<char>|
                            exists|i: int|
                                0 <= i < done.len() && trimmed(done[i]) == x && !is_structural(
                                    x,
                                ) implies #[trigger] string_views(seen@).contains(x) by {
                            let i = choose|i: int|
                                0 <= i < done.len() && trimmed(done[i]) == x && !is_structural(x);
                            if i < prev.len() {
                                assert(prev[i] == done[i]);
                            }
                        }
                    }
                }
            }
            j = j + 1;
        }
        proof {
            assert(views(ls@).take(ls.len() as int) =~= views(ls@));
            assert(ts.take(t + 1).drop_last() =~= ts.take(t as int));
            assert(ts.take(t + 1).last() == templates@[t as int]@);
        }
        t = t + 1;
    }
    assert(ts.take(templates.len() as int) =~= ts);
    out
}

/// Comment and blank lines are never dropped: each one of the merged texts
/// is kept, however often it occurs.
pub proof fn lemma_structural_line_kept(ts: Seq<Seq<char>>, i: int)
    requires
        0 <= i < all_lines(ts).len(),
        is_structural(trimmed(all_lines(ts)[i])),
    ensures
        keeps(all_lines(ts).take(i), all_lines(ts)[i]),
{
}

/// The first line with a given trimmed pattern is kept, so patterns that
/// differ in any character, case included, are all kept.
pub proof fn lemma_first_pattern_kept(ts: Seq<Seq<char>>, i: int)
    requires
        0 <= i < all_lines(ts).len(),
        forall|j: int| 0 <= j < i ==> trimmed(all_lines(ts)[j]) != trimmed(all_lines(ts)[i]),
    ensures
        keeps(all_lines(ts).take(i), all_lines(ts)[i]),
{
}

/// A pattern line whose trimmed text occurred on an earlier line is dropped.
pub proof fn lemma_repeated_pattern_dropped(ts: Seq<Seq<char>>, i: int, j: int)
    requires
        0 <= j < i < all_lines(ts).len(),
        !is_structural(trimmed(all_lines(ts)[i])),
        trimmed(all_lines(ts)[j]) == trimmed(all_lines(ts)[i]),
    ensures
        !keeps(all_lines(ts).take(i), all_lines(ts)[i]),
{
    assert(all_lines(ts).take(i)[j] == all_lines(ts)[j]);
}

/// The lines that the merge keeps, in order.
pub open spec fn kept(ls: Seq<Seq<char>>) -> Seq<Seq<char>>
    decreases ls.len(),
{
    if ls.len() == 0 {
        seq![]
    } else if keeps(ls.drop_last(), ls.last()) {
        kept(ls.drop_last()).push(ls.last())
    } else {
        kept(ls.drop_last())
    }
}

/// The lines `k`, each followed by a newline.
pub open spec fn terminated(k: Seq<Seq<char>>) -> Seq<char>
    decreases k.len(),
{
    if k.len() == 0 {
        seq![]
    } else {
        terminated(k.drop_last()) + k.last().push('\n')
    }
}

/// The comment and blank lines among `ls`, in order.
pub open spec fn structural_lines(ls: Seq<Seq<char>>) -> Seq<Seq<char>>
    decreases ls.len(),
{
    if ls.len() == 0 {
        seq![]
    } else if is_structural(trimmed(ls.last())) {
        structural_lines(ls.drop_last()).push(ls.last())
    } else {
        structural_lines(ls.drop_last())
    }
}

/// Whether a line can be read back from text: it holds no newline and does
/// not end in a carriage return.
pub open spec fn plain_line(l: Seq<char>) -> bool {
    !l.contains('\n') && !(l.len() > 0 && l.last() == '\r')
}

/// The merged text is the kept lines, each followed by a newline.
proof fn lemma_merged_is_kept(ls: Seq<Seq<char>>)
    ensures
        merged(ls) == terminated(kept(ls)),
    decreases ls.len(),
{
    if ls.len() > 0 {
        lemma_merged_is_kept(ls.drop_last());
        let k = kept(ls.drop_last());
        if keeps(ls.drop_last(), ls.last()) {
            assert(k.push(ls.last()).drop_last() =~= k);
        } else {
            assert(merged(ls) =~= merged(ls.drop_last()));
        }
    }
}

/// Every kept line is a line of `ls`.
proof fn lemma_kept_from(ls: Seq<Seq<char>>)
    ensures
        forall|i: int| 0 <= i < kept(ls).len() ==> exists|j: int|
            0 <= j < ls.len() && #[trigger] kept(ls)[i] == ls[j],
    decreases ls.len(),
{
    if ls.len() > 0 {
        let d = ls.drop_last();
        lemma_kept_from(d);
        let kd = kept(d);
        assert forall|i: int| 0 <= i < kept(ls).len() implies exists|j: int|
            0 <= j < ls.len() && #[trigger] kept(ls)[i] == ls[j] by {
            if i < kd.len() {
                let j = choose|j: int| 0 <= j < d.len() && kd[i] == d[j];
                assert(kept(ls)[i] == kd[i]);
                assert(kept(ls)[i] == ls[j]);
            } else {
                assert(kept(ls)[i] == ls[ls.len() - 1]);
            }
        }
    }
}

/// Every structural line is kept, in order.
proof fn lemma_kept_structural(ls: Seq<Seq<char>>)
    ensures
        structural_lines(kept(ls)) == structural_lines(ls),
    decreases ls.len(),
{
    if ls.len() > 0 {
        let d = ls.drop_last();
        lemma_kept_structural(d);
        lemma_structural_push(kept(d), ls.last());
    }
}

/// No two kept pattern lines share trimmed text.
proof fn lemma_kept_unique(ls: Seq<Seq<char>>)
    ensures
        forall|i: int, j: int|
            0 <= i < j < kept(ls).len() && !is_structural(trimmed(#[trigger] kept(ls)[i]))
                ==> trimmed(kept(ls)[i]) != trimmed(#[trigger] kept(ls)[j]),
    decreases ls.len(),
{
    if ls.len() > 0 {
        let d = ls.drop_last();
        let l = ls.last();
        lemma_kept_unique(d);
        lemma_kept_from(d);
        let kd = kept(d);
        if keeps(d, l) {
            let k = kept(ls);
            assert forall|i: int, j: int|
                0 <= i < j < k.len() && !is_structural(trimmed(#[trigger] k[i])) implies trimmed(
                k[i],
            ) != trimmed(#[trigger] k[j]) by {
                assert(k[i] == kd[i]);
                if j < kd.len() {
                    assert(k[j] == kd[j]);
                } else {
                    assert(k[j] == l);
                    let jj = choose|jj: int| 0 <= jj < d.len() && kd[i] == d[jj];
                }
            }
        }
    }
}

/// Every trimmed pattern of `ls` has a kept line.
proof fn lemma_kept_complete(ls: Seq<Seq<char>>)
    ensures
        forall|i: int|
            0 <= i < ls.len() && !is_structural(trimmed(#[trigger] ls[i])) ==> exists|j: int|
                0 <= j < kept(ls).len() && trimmed(kept(ls)[j]) == trimmed(ls[i]),
    decreases ls.len(),
{
    if ls.len() > 0 {
        let d = ls.drop_last();
        let l = ls.last();
        lemma_kept_complete(d);
        let kd = kept(d);
        let k = kept(ls);
        assert forall|i: int|
            0 <= i < ls.len() && !is_structural(trimmed(#[trigger] ls[i])) implies exists|j: int|
            0 <= j < k.len() && trimmed(k[j]) == trimmed(ls[i]) by {
            if i < d.len() {
                assert(ls[i] == d[i]);
                let j = choose|j: int| 0 <= j < kd.len() && trimmed(kd[j]) == trimmed(d[i]);
                assert(k[j] == kd[j]);
            } else if keeps(d, l) {
                assert(k[k.len() - 1] == ls[i]);
            } else {
                let jj = choose|jj: int| 0 <= jj < d.len() && trimmed(d[jj]) == trimmed(l);
                assert(d[jj] == ls[jj]);
                let j = choose|j: int| 0 <= j < kd.len() && trimmed(kd[j]) == trimmed(d[jj]);
                assert(k[j] == kd[j]);
            }
        }
    }
}

/// The lines of one line and a newline, after a partly read line `cur`.
proof fn lemma_lines_one(l: Seq<char>, cur: Seq<char>)
    requires
        !l.contains('\n'),
    ensures
        lines_from(l.push('\n'), cur) == seq![strip_cr(cur + l)],
    decreases l.len(),
{
    if l.len() == 0 {
        assert(cur + l =~= cur);
        assert(l.push('\n').drop_first() =~= Seq::<char>::empty());
        assert(l.push('\n')[0] == '\n');
        let e = l.push('\n').drop_first();
        assert(lines_from(e, seq![]) == Seq::<Seq<char>>::empty());
        assert(lines_from(l.push('\n'), cur) == seq![strip_cr(cur)] + lines_from(e, seq![]));
        assert(seq![strip_cr(cur)] + Seq::<Seq<char>>::empty() =~= seq![strip_cr(cur)]);
    } else {
        assert(l.push('\n')[0] == l[0]);
        assert(l[0] != '\n') by {
            if l[0] == '\n' {
                assert(l.contains(l[0]));
            }
        }
        assert(!l.drop_first().contains('\n')) by {
            if l.drop_first().contains('\n') {
                let j = choose|j: int| 0 <= j < l.drop_first().len() && l.drop_first()[j] == '\n';
                assert(l[j + 1] == '\n');
            }
        }
        assert(l.push('\n').drop_first() =~= l.drop_first().push('\n'));
        lemma_lines_one(l.drop_first(), cur.push(l[0]));
        assert(lines_from(l.push('\n'), cur) == lines_from(
            l.push('\n').drop_first(),
            cur.push(l[0]),
        ));
        assert(cur.push(l[0]) + l.drop_first() =~= cur + l);
    }
}

/// Text that ends in a newline ends its last line: reading on starts a new
/// line.
proof fn lemma_lines_concat(a: Seq<char>, b: Seq<char>, cur: Seq<char>)
    requires
        a.len() > 0,
        a.last() == '\n',
    ensures
        lines_from(a + b, cur) == lines_from(a, cur) + lines_from(b, seq![]),
    decreases a.len(),
{
    assert((a + b).drop_first() =~= a.drop_first() + b);
    if a[0] == '\n' {
        if a.len() == 1 {
            assert(a.drop_first() + b =~= b);
            assert(a.drop_first() =~= Seq::<char>::empty());
        } else {
            lemma_lines_concat(a.drop_first(), b, seq![]);
        }
    } else {
        lemma_lines_concat(a.drop_first(), b, cur.push(a[0]));
    }
}

/// Reading back lines that were each written with a newline gives them again.
proof fn lemma_lines_of_terminated(k: Seq<Seq<char>>)
    requires
        forall|i: int| 0 <= i < k.len() ==> plain_line(#[trigger] k[i]),
    ensures
        lines_spec(terminated(k)) == k,
    decreases k.len(),
{
    if k.len() > 0 {
        let d = k.drop_last();
        let l = k.last();
        assert(plain_line(k[k.len() - 1]));
        lemma_lines_one(l, seq![]);
        assert(seq![] + l =~= l);
        if d.len() == 0 {
            assert(terminated(d) + l.push('\n') =~= l.push('\n'));
            assert(k =~= seq![l]);
        } else {
            lemma_lines_of_terminated(d);
            let td = terminated(d);
            assert(td.last() == '\n');
            lemma_lines_concat(td, l.push('\n'), seq![]);
            assert(d.push(l) =~= k);
        }
    }
}

/// The structural lines after one more line.
proof fn lemma_structural_push(ls: Seq<Seq<char>>, l: Seq<char>)
    ensures
        structural_lines(ls.push(l)) == if is_structural(trimmed(l)) {
            structural_lines(ls).push(l)
        } else {
            structural_lines(ls)
        },
{
    assert(ls.push(l).drop_last() =~= ls);
}

/// Merging keeps every comment and blank line, in order: read back line by
/// line, the merged text has exactly the structural lines of the templates.
/// Where a template's line ends in a carriage return not followed by a
/// newline, writing it with a newline makes it read back differently, so such
/// lines are left out.
pub proof fn lemma_merge_keeps_structural_lines(ts: Seq<Seq<char>>)
    requires
        forall|i: int| 0 <= i < all_lines(ts).len() ==> plain_line(#[trigger] all_lines(ts)[i]),
    ensures
        structural_lines(lines_spec(merge_spec(ts))) == structural_lines(all_lines(ts)),
{
    lemma_merge_lines(ts);
    lemma_kept_structural(all_lines(ts));
}

/// Read back line by line, the merged text holds each trimmed pattern of the
/// templates exactly once: no two pattern lines share trimmed text, and every
/// pattern of the templates is there.
pub proof fn lemma_merge_patterns_once(ts: Seq<Seq<char>>)
    requires
        forall|i: int| 0 <= i < all_lines(ts).len() ==> plain_line(#[trigger] all_lines(ts)[i]),
    ensures
        forall|i: int, j: int|
            0 <= i < j < lines_spec(merge_spec(ts)).len() && !is_structural(
                trimmed(#[trigger] lines_spec(merge_spec(ts))[i]),
            ) ==> trimmed(lines_spec(merge_spec(ts))[i]) != trimmed(
                #[trigger] lines_spec(merge_spec(ts))[j],
            ),
        forall|i: int|
            0 <= i < all_lines(ts).len() && !is_structural(trimmed(#[trigger] all_lines(ts)[i]))
                ==> exists|j: int|
                0 <= j < lines_spec(merge_spec(ts)).len() && trimmed(
                    lines_spec(merge_spec(ts))[j],
                ) == trimmed(all_lines(ts)[i]),
{
    lemma_merge_lines(ts);
    lemma_kept_unique(all_lines(ts));
    lemma_kept_complete(all_lines(ts));
}

/// Read back line by line, the merged text is the kept lines.
proof fn lemma_merge_lines(ts: Seq<Seq<char>>)
    requires
        forall|i: int| 0 <= i < all_lines(ts).len() ==> plain_line(#[trigger] all_lines(ts)[i]),
    ensures
        lines_spec(merge_spec(ts)) == kept(all_lines(ts)),
{
    let ls = all_lines(ts);
    lemma_merged_is_kept(ls);
    lemma_kept_from(ls);
    assert forall|i: int| 0 <= i < kept(ls).len() implies plain_line(#[trigger] kept(ls)[i]) by {
        let j = choose|j: int| 0 <= j < ls.len() && kept(ls)[i] == ls[j];
    }
    lemma_lines_of_terminated(kept(ls));
}

} // verus!
