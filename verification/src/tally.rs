//! Totals of the count groups of a frame.
//!
//! What a count text means as a number, and how the texts of one key add
//! up, is left to a function that the caller supplies (`total`): it is
//! given the texts recorded for a key, in order, and gives the key's total,
//! or nothing where none of the texts is a count.

use vstd::prelude::*;
use crate::frame::{law_comment_ends_frame, groups_view, pairs_view, read_frame, frame_of};
use crate::pattern::{get_reserved_matchers, reserved_matchers};
use crate::text::strings_view;

verus! {

/// `total`, given count texts whose views are `texts`, may give `out`.
pub open spec fn total_gives<T, F: Fn(&Vec<String>) -> Option<T>>(
    total: F,
    texts: Seq<Seq<char>>,
    out: Option<T>,
) -> bool {
    exists|v: Vec<String>| #[trigger] strings_view(v@) == texts && call_ensures(total, (&v,), out)
}

/// The groups whose total is given, each key with its total, in the order
/// of the groups.
pub open spec fn kept_totals<T>(
    groups: Seq<(Seq<char>, Seq<Seq<char>>)>,
    outs: Seq<Option<T>>,
) -> Seq<(Seq<char>, T)>
    decreases groups.len(),
{
    if groups.len() == 0 {
        seq![]
    } else {
        let rest = kept_totals(groups.drop_last(), outs.drop_last());
        match outs.last() {
            Some(t) => rest.push((groups.last().0, t)),
            None => rest,
        }
    }
}

/// Keys with their totals, by the views of the keys.
pub open spec fn totals_view<T>(v: Seq<(String, T)>) -> Seq<(Seq<char>, T)> {
    v.map_values(|p: (String, T)| (p.0@, p.1))
}

/// `res` holds the totals that `total` gave, `outs[j]` for the group
/// `groups[j]`.
pub open spec fn totalled_by<T, F: Fn(&Vec<String>) -> Option<T>>(
    total: F,
    groups: Seq<(Seq<char>, Seq<Seq<char>>)>,
    outs: Seq<Option<T>>,
    res: Seq<(Seq<char>, T)>,
) -> bool {
    &&& outs.len() == groups.len()
    &&& forall|j: int| 0 <= j < groups.len() ==> total_gives(total, groups[j].1, outs[j])
    &&& res == kept_totals(groups, outs)
}

/// `res` holds the totals that `total` gave for the groups, in one call
/// on each group.
pub open spec fn totals_of<T, F: Fn(&Vec<String>) -> Option<T>>(
    total: F,
    groups: Seq<(Seq<char>, Seq<Seq<char>>)>,
    res: Seq<(Seq<char>, T)>,
) -> bool {
    exists|outs: Seq<Option<T>>| #[trigger] totalled_by(total, groups, outs, res)
}

/// The totals of the count groups: `total` is called once on each group's
/// texts, in order, and the keys whose total it gives are kept, in order.
pub fn tally_counts<T, F: Fn(&Vec<String>) -> Option<T>>(
    groups: &Vec<(String, Vec<String>)>,
    total: &F,
) -> (res: Vec<(String, T)>)
    requires
        forall|v: &Vec<String>| call_requires(*total, (v,)),
    ensures
        totals_of(*total, groups_view(groups@), totals_view(res@)),
{
    let ghost gv = groups_view(groups@);
    let ghost mut outs: Seq<Option<T>> = seq![];
    let mut res: Vec<(String, T)> = Vec::new();
    let n = groups.len();
    let mut i: usize = 0;
    assert(gv.take(0) =~= Seq::<(Seq<char>, Seq<Seq<char>>)>::empty());
    assert(totals_view(res@) =~= Seq::<(Seq<char>, T)>::empty());
    while i < n
        invariant
            n == groups@.len(),
            gv == groups_view(groups@),
            i <= n,
            forall|v: &Vec<String>| call_requires(*total, (v,)),
            totalled_by(*total, gv.take(i as int), outs, totals_view(res@)),
        decreases n - i,
    {
        let out = total(&groups[i].1);
        proof {
            assert(strings_view(groups@[i as int].1@) == gv[i as int].1);
            assert(total_gives(*total, gv[i as int].1, out));
            let ghost g = gv.take(i + 1);
            assert(g.drop_last() =~= gv.take(i as int));
            assert((outs.push(out)).drop_last() =~= outs);
        }
        let ghost before = res@;
        let ghost out_g = out;
        match out {
            Some(t) => {
                res.push((groups[i].0.clone(), t));
                assert(totals_view(res@) =~= totals_view(before).push((gv[i as int].0, t)));
            },
            None => {},
        }
        proof {
            outs = outs.push(out_g);
        }
        i = i + 1;
    }
    assert(gv.take(n as int) =~= gv);
    res
}

/// Reads one line: its counted keys with their totals, and its keyword
/// strings. The totals come from `total` as `tally_counts` says; the
/// strings and the groups are those of `read_frame`.
pub fn read_kvc_line<T, F: Fn(&Vec<String>) -> Option<T>>(
    line: &String,
    keywords: &Vec<(String, String)>,
    start_sequence: &str,
    total: &F,
) -> (res: (Vec<(String, T)>, Vec<(String, String)>))
    requires
        forall|v: &Vec<String>| call_requires(*total, (v,)),
    ensures
        pairs_view(res.1@) == frame_of(line@, pairs_view(keywords@), start_sequence@).0,
        totals_of(
            *total,
            frame_of(line@, pairs_view(keywords@), start_sequence@).1,
            totals_view(res.0@),
        ),
{
    let frame = read_frame(line.as_str(), keywords, start_sequence);
    let counts = tally_counts(&frame.counts, total);
    let ghost fv = frame_of(line@, pairs_view(keywords@), start_sequence@);
    let ghost outs = choose|outs: Seq<Option<T>>|
        totalled_by(*total, groups_view(frame.counts@), outs, totals_view(counts@));
    assert(totalled_by(*total, fv.1, outs, totals_view(counts@)));
    (counts, frame.strings)
}

/// `read_kvc_line` with the default keyword patterns and no start sequence.
pub fn read_kvc_line_default<T, F: Fn(&Vec<String>) -> Option<T>>(line: &String, total: &F) -> (res:
    (Vec<(String, T)>, Vec<(String, String)>))
    requires
        forall|v: &Vec<String>| call_requires(*total, (v,)),
    ensures
        pairs_view(res.1@) == frame_of(line@, reserved_matchers(), ""@).0,
        totals_of(*total, frame_of(line@, reserved_matchers(), ""@).1, totals_view(res.0@)),
{
    let keywords = get_reserved_matchers();
    read_kvc_line(line, &keywords, "", total)
}

/// `total` answers texts with equal views equally.
pub open spec fn total_functional<T, F: Fn(&Vec<String>) -> Option<T>>(total: F) -> bool {
    forall|v1: Vec<String>, v2: Vec<String>, o1: Option<T>, o2: Option<T>|
        #![trigger call_ensures(total, (&v1,), o1), call_ensures(total, (&v2,), o2)]
        strings_view(v1@) == strings_view(v2@) && call_ensures(total, (&v1,), o1) && call_ensures(
            total,
            (&v2,),
            o2,
        ) ==> o1 == o2
}

/// Where `total` answers equal texts equally, the totals of the same
/// groups are the same.
pub proof fn law_totals_functional<T, F: Fn(&Vec<String>) -> Option<T>>(
    total: F,
    groups: Seq<(Seq<char>, Seq<Seq<char>>)>,
    r1: Seq<(Seq<char>, T)>,
    r2: Seq<(Seq<char>, T)>,
)
    requires
        total_functional(total),
        totals_of(total, groups, r1),
        totals_of(total, groups, r2),
    ensures
        r1 == r2,
{
    let o1 = choose|o: Seq<Option<T>>| totalled_by(total, groups, o, r1);
    let o2 = choose|o: Seq<Option<T>>| totalled_by(total, groups, o, r2);
    assert forall|j: int| 0 <= j < groups.len() implies o1[j] == o2[j] by {
        assert(total_gives(total, groups[j].1, o1[j]));
        assert(total_gives(total, groups[j].1, o2[j]));
        let v1 = choose|v: Vec<String>| #[trigger] strings_view(v@) == groups[j].1 && call_ensures(total, (&v,), o1[j]);
        let v2 = choose|v: Vec<String>| #[trigger] strings_view(v@) == groups[j].1 && call_ensures(total, (&v,), o2[j]);
        assert(call_ensures(total, (&v1,), o1[j]) && call_ensures(total, (&v2,), o2[j]));
    }
    assert(o1 =~= o2);
}

/// Where `total` answers equal texts equally, the default read of a line
/// gives what the general read gives with the default keyword patterns
/// and no start sequence: the same keyword strings and the same totals.
pub proof fn law_default_read<T, F: Fn(&Vec<String>) -> Option<T>>(
    line: Seq<char>,
    total: F,
    kw: Seq<(Seq<char>, Seq<char>)>,
    default_res: (Seq<(Seq<char>, T)>, Seq<(Seq<char>, Seq<char>)>),
    general_res: (Seq<(Seq<char>, T)>, Seq<(Seq<char>, Seq<char>)>),
)
    requires
        total_functional(total),
        kw == reserved_matchers(),
        default_res.1 == frame_of(line, reserved_matchers(), ""@).0,
        totals_of(total, frame_of(line, reserved_matchers(), ""@).1, default_res.0),
        general_res.1 == frame_of(line, kw, ""@).0,
        totals_of(total, frame_of(line, kw, ""@).1, general_res.0),
    ensures
        default_res == general_res,
{
    law_totals_functional(total, frame_of(line, kw, ""@).1, default_res.0, general_res.0);
}

/// Where `total` answers equal texts equally, reading `s + " #" + t`
/// gives what reading `s` gives: a `#` after white space ends the frame,
/// and nothing from it on is read.
pub proof fn law_comment_ends_line<T, F: Fn(&Vec<String>) -> Option<T>>(
    s: Seq<char>,
    t: Seq<char>,
    kw: Seq<(Seq<char>, Seq<char>)>,
    total: F,
    with_comment: (Seq<(Seq<char>, T)>, Seq<(Seq<char>, Seq<char>)>),
    without: (Seq<(Seq<char>, T)>, Seq<(Seq<char>, Seq<char>)>),
)
    requires
        total_functional(total),
        with_comment.1 == frame_of(s + seq![' ', '#'] + t, kw, seq![]).0,
        totals_of(total, frame_of(s + seq![' ', '#'] + t, kw, seq![]).1, with_comment.0),
        without.1 == frame_of(s, kw, seq![]).0,
        totals_of(total, frame_of(s, kw, seq![]).1, without.0),
    ensures
        with_comment == without,
{
    law_comment_ends_frame(s, t, kw);
    law_totals_functional(total, frame_of(s, kw, seq![]).1, with_comment.0, without.0);
}

/// The number of answers that give a total.
pub open spec fn given_count<T>(outs: Seq<Option<T>>) -> nat
    decreases outs.len(),
{
    if outs.len() == 0 {
        0
    } else {
        given_count(outs.drop_last()) + if outs.last() is Some {
            1nat
        } else {
            0nat
        }
    }
}

/// `res` holds, for the answers `outs` that `total` gave the groups, one
/// entry for each group given a total, in the groups' order: the entry
/// for group `j` is its key with its total, and sits after as many
/// entries as the groups before `j` that were given a total.
pub open spec fn totals_as_given<T, F: Fn(&Vec<String>) -> Option<T>>(
    total: F,
    groups: Seq<(Seq<char>, Seq<Seq<char>>)>,
    outs: Seq<Option<T>>,
    res: Seq<(Seq<char>, T)>,
) -> bool {
    &&& outs.len() == groups.len()
    &&& forall|j: int| 0 <= j < groups.len() ==> #[trigger] total_gives(total, groups[j].1, outs[j])
    &&& res.len() == given_count(outs)
    &&& forall|j: int|
        #![trigger outs[j]]
        0 <= j < groups.len() && outs[j] is Some ==> given_count(outs.take(j)) < res.len()
            && res[given_count(outs.take(j)) as int] == (groups[j].0, outs[j].unwrap())
}

/// The totals hold one entry for each group to which `total` gave a total
/// (however many texts the group holds), and no other: the groups with a
/// total in their order, each key with the total given for it.
pub proof fn law_totals_kept<T, F: Fn(&Vec<String>) -> Option<T>>(
    total: F,
    groups: Seq<(Seq<char>, Seq<Seq<char>>)>,
    res: Seq<(Seq<char>, T)>,
)
    requires
        totals_of(total, groups, res),
    ensures
        exists|outs: Seq<Option<T>>| #[trigger] totals_as_given(total, groups, outs, res),
{
    let outs = choose|o: Seq<Option<T>>| totalled_by(total, groups, o, res);
    assert(totalled_by(total, groups, outs, res));
    assert(res == kept_totals(groups, outs));
    assert(outs.len() == groups.len());
    assert(forall|j: int| 0 <= j < groups.len() ==> #[trigger] total_gives(total, groups[j].1, outs[j]));
    lemma_kept_totals(groups, outs);
    assert(res.len() == given_count(outs));
    assert forall|j: int| #![trigger outs[j]] 0 <= j < groups.len() && outs[j] is Some implies given_count(outs.take(j)) < res.len()
        && res[given_count(outs.take(j)) as int] == (groups[j].0, outs[j].unwrap()) by {
        lemma_kept_totals_at(groups, outs, j);
    }
    assert(totals_as_given(total, groups, outs, res));
}

proof fn lemma_kept_totals<T>(groups: Seq<(Seq<char>, Seq<Seq<char>>)>, outs: Seq<Option<T>>)
    requires
        outs.len() == groups.len(),
    ensures
        kept_totals(groups, outs).len() == given_count(outs),
    decreases groups.len(),
{
    if groups.len() > 0 {
        lemma_kept_totals(groups.drop_last(), outs.drop_last());
    }
}

proof fn lemma_given_count_take<T>(outs: Seq<Option<T>>, j: int)
    requires
        0 <= j < outs.len(),
        outs[j] is Some,
    ensures
        given_count(outs.take(j)) < given_count(outs),
    decreases outs.len(),
{
    if j < outs.len() - 1 {
        assert(outs.take(j) =~= outs.drop_last().take(j));
        assert(outs.drop_last()[j] == outs[j]);
        lemma_given_count_take(outs.drop_last(), j);
    } else {
        assert(outs.take(j) =~= outs.drop_last());
    }
}

proof fn lemma_kept_totals_at<T>(groups: Seq<(Seq<char>, Seq<Seq<char>>)>, outs: Seq<Option<T>>, j: int)
    requires
        outs.len() == groups.len(),
        0 <= j < groups.len(),
        outs[j] is Some,
    ensures
        given_count(outs.take(j)) < kept_totals(groups, outs).len(),
        kept_totals(groups, outs)[given_count(outs.take(j)) as int] == (groups[j].0, outs[j].unwrap()),
    decreases groups.len(),
{
    lemma_kept_totals(groups, outs);
    lemma_given_count_take(outs, j);
    let g = groups.drop_last();
    let o = outs.drop_last();
    lemma_kept_totals(g, o);
    if j == groups.len() - 1 {
        assert(outs.take(j) =~= o);
    } else {
        assert(outs.take(j) =~= o.take(j));
        assert(o[j] == outs[j]);
        assert(g[j] == groups[j]);
        lemma_kept_totals_at(g, o, j);
    }
}

} // verus!
