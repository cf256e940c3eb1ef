//! Text building blocks of the exposition format: the namespace/name
//! composer, and the tag set renderer with its deterministic ordering.
//!
//! Tag pairs are rendered as `key="value"` strings and the whole list is
//! sorted lexicographically by that rendered string (not by key alone), then
//! joined with commas inside braces. The sort order is the total lexicographic
//! order on character sequences, so the output is a pure function of the tag
//! multiset: the input order of the pairs cannot show through.

use vstd::prelude::*;
use vstd::relations::{sorted_by, total_ordering};
use vstd::seq_lib::{lemma_sorted_unique, group_to_multiset_ensures};
use vstd::multiset::group_multiset_axioms;
use vstd::string::*;

verus! {

/// Lexicographic order on character sequences, by code point.
pub open spec fn lex_le(a: Seq<char>, b: Seq<char>) -> bool
    decreases a.len(),
{
    if a.len() == 0 {
        true
    } else if b.len() == 0 {
        false
    } else if a[0] == b[0] {
        lex_le(a.drop_first(), b.drop_first())
    } else {
        (a[0] as u32) < (b[0] as u32)
    }
}

/// `lex_le` as a first-class relation, the sort key of the tag renderer.
pub open spec fn lex_leq() -> spec_fn(Seq<char>, Seq<char>) -> bool {
    |a: Seq<char>, b: Seq<char>| lex_le(a, b)
}

pub proof fn lemma_lex_le_refl(a: Seq<char>)
    ensures
        lex_le(a, a),
    decreases a.len(),
{
    if a.len() > 0 {
        lemma_lex_le_refl(a.drop_first());
    }
}

pub proof fn lemma_lex_le_total(a: Seq<char>, b: Seq<char>)
    ensures
        lex_le(a, b) || lex_le(b, a),
    decreases a.len(),
{
    if a.len() == 0 || b.len() == 0 {
    } else if a[0] == b[0] {
        lemma_lex_le_total(a.drop_first(), b.drop_first());
    } else {
        vstd::utf8::char_u32_cast(a[0], a[0] as u32);
        vstd::utf8::char_u32_cast(b[0], b[0] as u32);
        assert((a[0] as u32) != (b[0] as u32));
    }
}

pub proof fn lemma_lex_le_antisym(a: Seq<char>, b: Seq<char>)
    requires
        lex_le(a, b),
        lex_le(b, a),
    ensures
        a == b,
    decreases a.len(),
{
    if a.len() == 0 {
        assert(b.len() == 0);
        assert(a =~= b);
    } else {
        assert(b.len() > 0);
        if a[0] == b[0] {
            lemma_lex_le_antisym(a.drop_first(), b.drop_first());
            assert(a.drop_first().len() == a.len() - 1);
            assert(b.drop_first().len() == b.len() - 1);
            assert(a.drop_first() == b.drop_first());
            assert(a.len() == b.len());
            assert forall|i: int| 0 <= i < a.len() implies a[i] == b[i] by {
                if i > 0 {
                    assert(a.drop_first()[i - 1] == b.drop_first()[i - 1]);
                }
            }
            assert(a =~= b);
        } else {
            assert((a[0] as u32) < (b[0] as u32));
            assert((b[0] as u32) < (a[0] as u32));
            assert(false);
        }
    }
}

pub proof fn lemma_lex_le_trans(a: Seq<char>, b: Seq<char>, c: Seq<char>)
    requires
        lex_le(a, b),
        lex_le(b, c),
    ensures
        lex_le(a, c),
    decreases a.len(),
{
    if a.len() == 0 || b.len() == 0 || c.len() == 0 {
    } else {
        if a[0] == b[0] && b[0] == c[0] {
            lemma_lex_le_trans(a.drop_first(), b.drop_first(), c.drop_first());
        }
    }
}

pub proof fn lemma_lex_total_ordering()
    ensures
        total_ordering(lex_leq()),
{
    let leq = lex_leq();
    assert forall|a: Seq<char>| #[trigger] leq(a, a) by {
        lemma_lex_le_refl(a);
    }
    assert forall|a: Seq<char>, b: Seq<char>| #[trigger] leq(a, b) && #[trigger] leq(b, a)
        implies a == b by {
        lemma_lex_le_antisym(a, b);
    }
    assert forall|a: Seq<char>, b: Seq<char>, c: Seq<char>|
        #[trigger] leq(a, b) && #[trigger] leq(b, c) implies leq(a, c) by {
        lemma_lex_le_trans(a, b, c);
    }
    assert forall|a: Seq<char>, b: Seq<char>| #[trigger] leq(a, b) || #[trigger] leq(b, a) by {
        lemma_lex_le_total(a, b);
    }
}

/// Decide `lex_le` on string slices.
pub fn str_lex_le(a: &str, b: &str) -> (r: bool)
    ensures
        r == lex_le(a@, b@),
{
    let la = a.unicode_len();
    let lb = b.unicode_len();
    let mut i: usize = 0;
    proof {
        assert(a@.skip(0) =~= a@);
        assert(b@.skip(0) =~= b@);
    }
    loop
        invariant
            i <= la,
            i <= lb,
            la == a@.len(),
            lb == b@.len(),
            lex_le(a@, b@) == lex_le(a@.skip(i as int), b@.skip(i as int)),
        decreases la - i,
    {
        if i >= la {
            assert(a@.skip(i as int).len() == 0);
            return true;
        }
        if i >= lb {
            assert(b@.skip(i as int).len() == 0 && a@.skip(i as int).len() > 0);
            return false;
        }
        let ca = a.get_char(i);
        let cb = b.get_char(i);
        if ca == cb {
            proof {
                assert(a@.skip(i as int).drop_first() =~= a@.skip(i + 1));
                assert(b@.skip(i as int).drop_first() =~= b@.skip(i + 1));
            }
            i = i + 1;
        } else {
            return (ca as u32) < (cb as u32);
        }
    }
}

/// The character sequences behind a sequence of strings.
pub open spec fn views_of(v: Seq<String>) -> Seq<Seq<char>> {
    v.map_values(|s: String| s@)
}

/// Sort strings into the unique lexicographically ordered permutation.
fn sort_strings(v: Vec<String>) -> (r: Vec<String>)
    ensures
        views_of(r@) == views_of(v@).sort_by(lex_leq()),
{
    let ghost orig = views_of(v@);
    let mut src = v;
    let mut out: Vec<String> = Vec::new();
    proof {
        broadcast use group_to_multiset_ensures;
        broadcast use group_multiset_axioms;

        assert(views_of(out@) =~= Seq::<Seq<char>>::empty());
        assert(views_of(out@).to_multiset().add(views_of(src@).to_multiset())
            =~= orig.to_multiset());
    }
    while src.len() > 0
        invariant
            views_of(out@).to_multiset().add(views_of(src@).to_multiset()) == orig.to_multiset(),
            sorted_by(views_of(out@), lex_leq()),
            forall|k: int, j: int|
                0 <= k < out@.len() && 0 <= j < src@.len() ==> lex_le(
                    views_of(out@)[k],
                    views_of(src@)[j],
                ),
        decreases src.len(),
    {
        let mut m: usize = 0;
        let mut j: usize = 1;
        proof {
            lemma_lex_le_refl(views_of(src@)[0]);
        }
        while j < src.len()
            invariant
                m < j,
                j <= src@.len(),
                src@.len() > 0,
                forall|k: int| 0 <= k < j ==> lex_le(views_of(src@)[m as int], views_of(src@)[k]),
            decreases src@.len() - j,
        {
            if str_lex_le(src[j].as_str(), src[m].as_str()) {
                proof {
                    assert forall|k: int| 0 <= k < j + 1 implies lex_le(
                        views_of(src@)[j as int],
                        views_of(src@)[k],
                    ) by {
                        lemma_lex_le_refl(views_of(src@)[j as int]);
                        if k < j {
                            lemma_lex_le_trans(
                                views_of(src@)[j as int],
                                views_of(src@)[m as int],
                                views_of(src@)[k],
                            );
                        }
                    }
                }
                m = j;
            } else {
                proof {
                    lemma_lex_le_total(views_of(src@)[m as int], views_of(src@)[j as int]);
                }
            }
            j = j + 1;
        }
        let ghost src0 = src@;
        let ghost out0 = out@;
        let x = src.remove(m);
        out.push(x);
        proof {
            broadcast use group_to_multiset_ensures;
            broadcast use group_multiset_axioms;

            assert(views_of(src@) =~= views_of(src0).remove(m as int));
            assert(views_of(out@) =~= views_of(out0).push(x@));
            assert(views_of(src0)[m as int] == x@);
            assert(views_of(out@).to_multiset() =~= views_of(out0).to_multiset().insert(x@));
            assert(views_of(src@).to_multiset() =~= views_of(src0).to_multiset().remove(x@));
            assert(views_of(src0).to_multiset().contains(x@));
            assert(views_of(out@).to_multiset().add(views_of(src@).to_multiset()) =~= orig.to_multiset());
            // the pushed element follows everything already placed
            assert forall|k1: int, k2: int| 0 <= k1 < k2 < views_of(out@).len() implies lex_leq()(
                views_of(out@)[k1],
                views_of(out@)[k2],
            ) by {
                if k2 == views_of(out@).len() - 1 {
                    assert(lex_le(views_of(out0)[k1], views_of(src0)[m as int]));
                }
            }
        }
    }
    proof {
        broadcast use group_to_multiset_ensures;
        broadcast use group_multiset_axioms;

        assert(views_of(src@) =~= Seq::<Seq<char>>::empty());
        assert(views_of(out@).to_multiset() =~= orig.to_multiset());
        lemma_lex_total_ordering();
        orig.lemma_sort_by_ensures(lex_leq());
        lemma_sorted_unique(views_of(out@), orig.sort_by(lex_leq()), lex_leq());
    }
    out
}

// --- tag rendering ---------------------------------------------------------

/// One rendered tag pair: `key="value"`.
pub open spec fn tag_part(k: Seq<char>, v: Seq<char>) -> Seq<char> {
    k + "=\""@ + v + "\""@
}

pub open spec fn parts_of(tags: Seq<(Seq<char>, Seq<char>)>) -> Seq<Seq<char>> {
    tags.map_values(|p: (Seq<char>, Seq<char>)| tag_part(p.0, p.1))
}

pub open spec fn join_commas(parts: Seq<Seq<char>>) -> Seq<char>
    decreases parts.len(),
{
    if parts.len() == 0 {
        Seq::empty()
    } else if parts.len() == 1 {
        parts[0]
    } else {
        join_commas(parts.drop_last()) + ","@ + parts.last()
    }
}

/// The full rendered tag list: nothing without tags, `{k="v",...}` otherwise,
/// with the parts (tag pairs plus the optional synthesized pair) sorted by
/// their rendered text.
pub open spec fn tags_text(
    tags: Option<Seq<(Seq<char>, Seq<char>)>>,
    extra: Option<(Seq<char>, Seq<char>)>,
) -> Seq<char> {
    match (tags, extra) {
        (Option::None, Option::None) => Seq::empty(),
        (Option::None, Option::Some(e)) => "{"@ + tag_part(e.0, e.1) + "}"@,
        (Option::Some(ts), Option::None) => "{"@ + join_commas(
            parts_of(ts).sort_by(lex_leq()),
        ) + "}"@,
        (Option::Some(ts), Option::Some(e)) => "{"@ + join_commas(
            parts_of(ts).push(tag_part(e.0, e.1)).sort_by(lex_leq()),
        ) + "}"@,
    }
}

fn push_part(parts: &mut Vec<String>, k: &str, v: &str)
    ensures
        views_of(final(parts)@) == views_of(old(parts)@).push(tag_part(k@, v@)),
{
    let mut part = k.to_owned();
    part.append("=\"");
    part.append(v);
    part.append("\"");
    parts.push(part);
    proof {
        assert(part@ =~= tag_part(k@, v@));
        assert(views_of(final(parts)@) =~= views_of(old(parts)@).push(tag_part(k@, v@)));
    }
}

/// Render a tag map plus an optional synthesized pair into the sorted,
/// comma-joined, brace-wrapped tag list. Pure: the text appended depends only
/// on the multiset of pairs.
pub fn render_tags(tags: &Option<Vec<(String, String)>>, extra: Option<(&str, String)>) -> (r:
    String)
    ensures
        r@ == tags_text(tags.deep_view(), match extra {
            Option::Some((k, v)) => Option::Some((k@, v@)),
            Option::None => Option::None,
        }),
{
    match (tags, extra) {
        (Option::None, Option::None) => String::new(),
        (Option::None, Option::Some((k, v))) => {
            let mut out = String::from_str("{");
            out.append(k);
            out.append("=\"");
            out.append(v.as_str());
            out.append("\"}");
            proof {
                reveal_strlit("{");
                reveal_strlit("}");
                reveal_strlit("\"");
                reveal_strlit("\"}");
                assert("\"}"@ =~= "\""@ + "}"@);
                assert(out@ =~= "{"@ + tag_part(k@, v@) + "}"@);
            }
            out
        },
        (Option::Some(ts), extra) => {
            let ghost tviews = ts.deep_view();
            let mut parts: Vec<String> = Vec::new();
            let mut i: usize = 0;
            proof {
                assert(views_of(parts@) =~= parts_of(tviews.take(0)));
            }
            while i < ts.len()
                invariant
                    i <= ts@.len(),
                    tviews == ts.deep_view(),
                    tviews.len() == ts@.len(),
                    views_of(parts@) == parts_of(tviews.take(i as int)),
                decreases ts@.len() - i,
            {
                push_part(&mut parts, ts[i].0.as_str(), ts[i].1.as_str());
                proof {
                    assert(tviews[i as int] == (ts@[i as int].0@, ts@[i as int].1@));
                    assert(tviews.take(i + 1).drop_last() =~= tviews.take(i as int));
                    assert(parts_of(tviews.take(i + 1)) =~= parts_of(tviews.take(i as int)).push(
                        tag_part(tviews[i as int].0, tviews[i as int].1),
                    ));
                }
                i = i + 1;
            }
            proof {
                assert(tviews.take(ts@.len() as int) =~= tviews);
            }
            let ghost all_parts: Seq<Seq<char>> = match &extra {
                Option::Some((k, v)) => parts_of(tviews).push(tag_part(k@, v@)),
                Option::None => parts_of(tviews),
            };
            match &extra {
                Option::Some((k, v)) => {
                    push_part(&mut parts, k, v.as_str());
                },
                Option::None => {},
            }
            assert(views_of(parts@) == all_parts);
            let sorted = sort_strings(parts);
            let ghost sparts = all_parts.sort_by(lex_leq());
            let mut out = String::from_str("{");
            let mut j: usize = 0;
            proof {
                reveal_strlit("{");
                assert(out@ =~= "{"@ + join_commas(sparts.take(0)));
            }
            while j < sorted.len()
                invariant
                    j <= sorted@.len(),
                    views_of(sorted@) == sparts,
                    sparts.len() == sorted@.len(),
                    out@ == "{"@ + join_commas(sparts.take(j as int)),
                decreases sorted@.len() - j,
            {
                if j > 0 {
                    out.append(",");
                }
                out.append(sorted[j].as_str());
                proof {
                    reveal_strlit(",");
                    assert(sparts.take(j + 1).drop_last() =~= sparts.take(j as int));
                    assert(sparts.take(j + 1).last() == sparts[j as int]);
                    if j == 0 {
                        assert(join_commas(sparts.take(1)) =~= sparts[0]);
                        assert(out@ =~= "{"@ + join_commas(sparts.take(1)));
                    } else {
                        assert(join_commas(sparts.take(j + 1)) =~= join_commas(
                            sparts.take(j as int),
                        ) + ","@ + sparts[j as int]);
                        assert(out@ =~= "{"@ + join_commas(sparts.take(j + 1)));
                    }
                }
                j = j + 1;
            }
            out.append("}");
            proof {
                assert(sparts.take(sparts.len() as int) =~= sparts);
                assert(out@ =~= "{"@ + join_commas(sparts) + "}"@);
            }
            out
        },
    }
}

// --- namespace composition -------------------------------------------------

/// The flat identifier: `namespace`, separator, `name`; just `name` when the
/// namespace is absent or empty.
pub open spec fn compose_name(ns: Option<Seq<char>>, sep: char, name: Seq<char>) -> Seq<char> {
    match ns {
        Option::None => name,
        Option::Some(n) => if n.len() == 0 {
            name
        } else {
            n + seq![sep] + name
        },
    }
}

/// Join an optional namespace and a metric name with a separator.
pub fn encode_namespace(namespace: Option<&str>, separator: char, name: &str) -> (r: String)
    ensures
        r@ == compose_name(namespace.deep_view(), separator, name@),
{
    match namespace {
        Option::Some(ns) => {
            if ns.unicode_len() == 0 {
                name.to_owned()
            } else {
                let mut out = ns.to_owned();
                crate::num::push_char(&mut out, separator);
                out.append(name);
                proof {
                    assert(out@ =~= ns@ + seq![separator] + name@);
                }
                out
            }
        },
        Option::None => name.to_owned(),
    }
}

/// Tag rendering is order-independent: two tag lists with the same multiset
/// of pairs render to the same text, whatever their input order.
pub proof fn lemma_tags_order_independent(
    tags1: Seq<(Seq<char>, Seq<char>)>,
    tags2: Seq<(Seq<char>, Seq<char>)>,
    extra: Option<(Seq<char>, Seq<char>)>,
)
    requires
        tags1.to_multiset() == tags2.to_multiset(),
    ensures
        tags_text(Option::Some(tags1), extra) == tags_text(Option::Some(tags2), extra),
{
    broadcast use group_to_multiset_ensures;
    broadcast use group_multiset_axioms;

    let f = |p: (Seq<char>, Seq<char>)| tag_part(p.0, p.1);
    lemma_map_values_multiset(tags1, tags2, f);
    let (p1, p2) = match extra {
        Option::Some(e) => (parts_of(tags1).push(tag_part(e.0, e.1)), parts_of(tags2).push(
            tag_part(e.0, e.1),
        )),
        Option::None => (parts_of(tags1), parts_of(tags2)),
    };
    assert(p1.to_multiset() == p2.to_multiset());
    lemma_lex_total_ordering();
    p1.lemma_sort_by_ensures(lex_leq());
    p2.lemma_sort_by_ensures(lex_leq());
    lemma_sorted_unique(p1.sort_by(lex_leq()), p2.sort_by(lex_leq()), lex_leq());
}

/// Mapping a function over two multiset-equal sequences yields multiset-equal
/// sequences.
proof fn lemma_map_values_multiset<A, B>(s1: Seq<A>, s2: Seq<A>, f: spec_fn(A) -> B)
    requires
        s1.to_multiset() == s2.to_multiset(),
    ensures
        s1.map_values(f).to_multiset() == s2.map_values(f).to_multiset(),
    decreases s1.len(),
{
    broadcast use group_to_multiset_ensures;
    broadcast use group_multiset_axioms;

    if s1.len() == 0 {
        assert(s2.to_multiset().len() == 0);
        assert(s2.len() == 0);
        assert(s1.map_values(f) =~= s2.map_values(f));
    } else {
        let x = s1.last();
        assert(s1.to_multiset().contains(x));
        assert(s2.to_multiset().contains(x));
        assert(s2.contains(x));
        let j = choose|j: int| 0 <= j < s2.len() && s2[j] == x;
        let s1p = s1.drop_last();
        let s2p = s2.remove(j);
        assert(s1 =~= s1p.push(x));
        assert(s1p.push(x).to_multiset() == s1p.to_multiset().insert(x));
        assert(s2p.to_multiset() == s2.to_multiset().remove(x));
        assert(s1p.to_multiset() =~= s2p.to_multiset());
        lemma_map_values_multiset(s1p, s2p, f);
        assert(s1.map_values(f) =~= s1p.map_values(f).push(f(x)));
        assert(s2.map_values(f) =~= s2p.map_values(f).insert(j, f(x)));
        lemma_insert_multiset(s2p.map_values(f), j, f(x));
        assert(s1.map_values(f).to_multiset() =~= s2.map_values(f).to_multiset());
    }
}

/// Inserting an element anywhere adds it to the multiset.
proof fn lemma_insert_multiset<B>(s: Seq<B>, j: int, x: B)
    requires
        0 <= j <= s.len(),
    ensures
        s.insert(j, x).to_multiset() == s.to_multiset().insert(x),
{
    broadcast use group_to_multiset_ensures;
    broadcast use group_multiset_axioms;

    let t = s.insert(j, x);
    assert(t.remove(j) =~= s);
    assert(t[j] == x);
    assert(t.remove(j).to_multiset() == t.to_multiset().remove(t[j]));
    assert(t.to_multiset().contains(x)) by {
        assert(t[j] == x);
    }
    assert(t.to_multiset() =~= s.to_multiset().insert(x));
}

} // verus!
