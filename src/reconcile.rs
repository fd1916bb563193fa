//! The id numbers common to both sources, and the leave records kept for output.
use vstd::prelude::*;
use crate::record::{EmployeeData, EmployeeView, Source, views};

verus! {

/// The id numbers of the records of `recs` that came from `src`.
pub open spec fn ids_of(recs: Seq<EmployeeView>, src: Source) -> Set<Seq<char>> {
    Set::new(|id: Seq<char>| exists|i: int| 0 <= i < recs.len() && recs[i].source == src && recs[i].pesel == id)
}

/// The id numbers that appear in at least one roster record and at least one leave record.
pub open spec fn common_ids(recs: Seq<EmployeeView>) -> Set<Seq<char>> {
    ids_of(recs, Source::Roster).intersect(ids_of(recs, Source::Leave))
}

pub open spec fn is_kept(e: EmployeeView, ids: Set<Seq<char>>) -> bool {
    e.source == Source::Leave && ids.contains(e.pesel)
}

pub open spec fn kept_pred(ids: Set<Seq<char>>) -> spec_fn(EmployeeView) -> bool {
    |e: EmployeeView| is_kept(e, ids)
}

/// The leave records of `recs` whose id number is in `ids`, in their order.
pub open spec fn kept(recs: Seq<EmployeeView>, ids: Set<Seq<char>>) -> Seq<EmployeeView> {
    recs.filter(kept_pred(ids))
}

pub open spec fn leave_pred() -> spec_fn(EmployeeView) -> bool {
    |e: EmployeeView| e.source == Source::Leave
}

/// The leave records of `recs`, in their order.
pub open spec fn leave_only(recs: Seq<EmployeeView>) -> Seq<EmployeeView> {
    recs.filter(leave_pred())
}

pub open spec fn id_seq(v: Seq<String>) -> Seq<Seq<char>> {
    v.map_values(|s: String| s@)
}

/// Whether `data` holds a record from `src` with id number `id`.
fn has_id(data: &Vec<EmployeeData>, src: Source, id: &String) -> (r: bool)
    ensures
        r == ids_of(views(data@), src).contains(id@),
{
    let ghost recs = views(data@);
    let mut i: usize = 0;
    while i < data.len()
        invariant
            i <= data@.len(),
            recs == views(data@),
            forall|j: int| 0 <= j < i ==> !(recs[j].source == src && recs[j].pesel == id@),
        decreases data@.len() - i,
    {
        if data[i].source == src && data[i].pesel == *id {
            assert(recs[i as int].source == src && recs[i as int].pesel == id@);
            return true;
        }
        i = i + 1;
    }
    false
}

/// Whether `v` holds a string equal to `id`.
fn holds_string(v: &Vec<String>, id: &String) -> (r: bool)
    ensures
        r == id_seq(v@).contains(id@),
{
    let mut i: usize = 0;
    while i < v.len()
        invariant
            i <= v@.len(),
            forall|j: int| 0 <= j < i ==> v@[j]@ != id@,
        decreases v@.len() - i,
    {
        if v[i] == *id {
            assert(id_seq(v@)[i as int] == id@);
            return true;
        }
        i = i + 1;
    }
    false
}

/// The id numbers common to both sources, each once, in the order in which
/// their first roster record comes.
pub fn find_common_pesels(data: &Vec<EmployeeData>) -> (r: Vec<String>)
    ensures
        id_seq(r@).no_duplicates(),
        id_seq(r@).to_set() == common_ids(views(data@)),
{
    let ghost recs = views(data@);
    let mut r: Vec<String> = Vec::new();
    let mut i: usize = 0;
    assert(id_seq(r@).to_set() =~= ids_of(recs.subrange(0, 0), Source::Roster).intersect(
        ids_of(recs, Source::Leave),
    ));
    while i < data.len()
        invariant
            i <= data@.len(),
            recs == views(data@),
            id_seq(r@).no_duplicates(),
            id_seq(r@).to_set() == ids_of(recs.subrange(0, i as int), Source::Roster).intersect(
                ids_of(recs, Source::Leave),
            ),
        decreases data@.len() - i,
    {
        let ghost old_r = r@;
        let e = &data[i];
        let ghost before = ids_of(recs.subrange(0, i as int), Source::Roster);
        let ghost after = ids_of(recs.subrange(0, i + 1), Source::Roster);
        assert(recs[i as int] == e@);
        if e.source == Source::Roster && has_id(data, Source::Leave, &e.pesel) && !holds_string(
            &r,
            &e.pesel,
        ) {
            r.push(e.pesel.clone());
            assert(id_seq(r@) =~= id_seq(old_r).push(e.pesel@));
            proof {
                id_seq(old_r).lemma_push_to_set_commute(e.pesel@);
                assert forall|a: int, b: int|
                    0 <= a < id_seq(r@).len() && 0 <= b < id_seq(r@).len() && a != b implies id_seq(
                    r@,
                )[a] != id_seq(r@)[b] by {
                    if a == old_r.len() {
                        assert(id_seq(old_r).contains(id_seq(old_r)[b]));
                    }
                    if b == old_r.len() {
                        assert(id_seq(old_r).contains(id_seq(old_r)[a]));
                    }
                }
            }
        }
        proof {
            assert(after =~= if recs[i as int].source == Source::Roster {
                before.insert(recs[i as int].pesel)
            } else {
                before
            }) by {
                assert forall|id: Seq<char>| after.contains(id) implies (if recs[i as int].source
                    == Source::Roster {
                    before.insert(recs[i as int].pesel)
                } else {
                    before
                }).contains(id) by {
                    let j = choose|j: int| #![trigger recs.subrange(0, i + 1)[j]]
                        0 <= j < i + 1 && recs.subrange(0, i + 1)[j].source == Source::Roster
                            && recs.subrange(0, i + 1)[j].pesel == id;
                    if j < i {
                        assert(recs.subrange(0, i as int)[j] == recs.subrange(0, i + 1)[j]);
                    }
                }
                assert forall|id: Seq<char>| before.contains(id) implies after.contains(id) by {
                    let j = choose|j: int| #![trigger recs.subrange(0, i as int)[j]]
                        0 <= j < i && recs.subrange(0, i as int)[j].source == Source::Roster
                            && recs.subrange(0, i as int)[j].pesel == id;
                    assert(recs.subrange(0, i as int)[j] == recs.subrange(0, i + 1)[j]);
                }
                if recs[i as int].source == Source::Roster {
                    assert(recs.subrange(0, i + 1)[i as int] == recs[i as int]);
                    assert(after.contains(recs[i as int].pesel));
                }
            }
            assert(id_seq(r@).to_set() =~= after.intersect(ids_of(recs, Source::Leave)));
        }
        i = i + 1;
    }
    assert(recs.subrange(0, data@.len() as int) =~= recs);
    r
}

/// The leave records of `data` whose id number is one of `common`, in order.
pub fn filter_leave(data: &Vec<EmployeeData>, common: &Vec<String>) -> (r: Vec<EmployeeData>)
    ensures
        views(r@) == kept(views(data@), id_seq(common@).to_set()),
{
    let ghost recs = views(data@);
    let ghost ids = id_seq(common@).to_set();
    let mut r: Vec<EmployeeData> = Vec::new();
    let mut i: usize = 0;
    proof {
        reveal(Seq::filter);
        assert(recs.subrange(0, 0).filter(kept_pred(ids)) =~= Seq::<EmployeeView>::empty());
    }
    assert(views(r@) =~= Seq::<EmployeeView>::empty());
    while i < data.len()
        invariant
            i <= data@.len(),
            recs == views(data@),
            ids == id_seq(common@).to_set(),
            views(r@) == kept(recs.subrange(0, i as int), ids),
        decreases data@.len() - i,
    {
        let ghost pre = recs.subrange(0, i + 1);
        assert(pre.drop_last() =~= recs.subrange(0, i as int));
        assert(pre.last() == data@[i as int]@);
        let ghost old_r = r@;
        let ghost here = data@[i as int]@;
        assert(pre =~= recs.subrange(0, i as int).push(here));
        proof {
            recs.subrange(0, i as int).lemma_filter_push(here, kept_pred(ids));
        }
        assert(kept(pre, ids) == if is_kept(here, ids) {
            kept(recs.subrange(0, i as int), ids).push(here)
        } else {
            kept(recs.subrange(0, i as int), ids)
        });
        if data[i].source == Source::Leave && holds_string(common, &data[i].pesel) {
            r.push(data[i].duplicate());
            assert(views(r@) =~= views(old_r).push(data@[i as int]@));
        }
        i = i + 1;
        assert(pre =~= recs.subrange(0, i as int));
    }
    assert(recs.subrange(0, data@.len() as int) =~= recs);
    r
}

pub open spec fn other_source(s: Source) -> Source {
    match s {
        Source::Roster => Source::Leave,
        Source::Leave => Source::Roster,
    }
}

/// `recs` with the roles of the two sources exchanged.
pub open spec fn swap_roles(recs: Seq<EmployeeView>) -> Seq<EmployeeView> {
    recs.map_values(|e: EmployeeView| EmployeeView { source: other_source(e.source), ..e })
}

/// The common id set does not depend on which source plays the roster and
/// which the leave export.
pub proof fn lemma_common_ids_symmetric(recs: Seq<EmployeeView>)
    ensures
        common_ids(swap_roles(recs)) == common_ids(recs),
{
    let sw = swap_roles(recs);
    assert forall|src: Source| ids_of(sw, src) =~= ids_of(recs, other_source(src)) by {
        assert forall|id: Seq<char>| ids_of(sw, src).contains(id) implies ids_of(
            recs,
            other_source(src),
        ).contains(id) by {
            let i = choose|i: int| #![trigger sw[i]] 0 <= i < sw.len() && sw[i].source == src && sw[i].pesel == id;
            assert(recs[i].source == other_source(src));
        }
        assert forall|id: Seq<char>| ids_of(recs, other_source(src)).contains(id) implies ids_of(
            sw,
            src,
        ).contains(id) by {
            let i = choose|i: int| #![trigger recs[i]]
                0 <= i < recs.len() && recs[i].source == other_source(src) && recs[i].pesel == id;
            assert(sw[i].source == src && sw[i].pesel == id);
        }
    }
    assert(ids_of(sw, Source::Roster) == ids_of(recs, Source::Leave));
    assert(ids_of(sw, Source::Leave) == ids_of(recs, Source::Roster));
    assert(common_ids(sw) =~= common_ids(recs));
}

proof fn lemma_filter_from(s: Seq<EmployeeView>, p: spec_fn(EmployeeView) -> bool)
    ensures
        forall|k: int| 0 <= k < s.filter(p).len() ==> s.contains(#[trigger] s.filter(p)[k]),
    decreases s.len(),
{
    reveal(Seq::filter);
    if s.len() > 0 {
        let rest = s.drop_last();
        lemma_filter_from(rest, p);
        assert forall|k: int| 0 <= k < s.filter(p).len() implies s.contains(#[trigger] s.filter(p)[k]) by {
            if k < rest.filter(p).len() {
                assert(s.filter(p)[k] == rest.filter(p)[k]);
                let j = choose|j: int| 0 <= j < rest.len() && rest[j] == rest.filter(p)[k];
                assert(s[j] == rest[j]);
            } else {
                assert(s.filter(p)[k] == s.last());
                assert(s[s.len() - 1] == s.last());
            }
        }
    }
}

proof fn lemma_kept_len(recs: Seq<EmployeeView>, ids: Set<Seq<char>>)
    ensures
        kept(recs, ids).len() <= leave_only(recs).len(),
    decreases recs.len(),
{
    reveal(Seq::filter);
    if recs.len() > 0 {
        lemma_kept_len(recs.drop_last(), ids);
    }
}

/// The output holds exactly the leave records whose id number appears in both
/// sources: each output record is such a record of the input, each such record
/// is output, and there are no more output records than leave records.
pub proof fn lemma_output_exact(recs: Seq<EmployeeView>)
    ensures
        forall|k: int|
            0 <= k < kept(recs, common_ids(recs)).len() ==> {
                let e = #[trigger] kept(recs, common_ids(recs))[k];
                &&& e.source == Source::Leave
                &&& common_ids(recs).contains(e.pesel)
                &&& recs.contains(e)
            },
        forall|i: int|
            0 <= i < recs.len() && (#[trigger] recs[i]).source == Source::Leave && common_ids(
                recs,
            ).contains(recs[i].pesel) ==> kept(recs, common_ids(recs)).contains(recs[i]),
        kept(recs, common_ids(recs)).len() <= leave_only(recs).len(),
{
    let ids = common_ids(recs);
    let p = kept_pred(ids);
    lemma_filter_from(recs, p);
    assert forall|k: int| 0 <= k < kept(recs, ids).len() implies {
        let e = #[trigger] kept(recs, ids)[k];
        &&& e.source == Source::Leave
        &&& ids.contains(e.pesel)
        &&& recs.contains(e)
    } by {
        recs.lemma_filter_pred(p, k);
    }
    assert forall|i: int|
        0 <= i < recs.len() && (#[trigger] recs[i]).source == Source::Leave && ids.contains(
            recs[i].pesel,
        ) implies kept(recs, ids).contains(recs[i]) by {
        recs.lemma_filter_contains(p, i);
    }
    lemma_kept_len(recs, ids);
}

/// A leave record whose id number no roster record has changes nothing,
/// wherever it is inserted: neither the common id set nor the output.
pub proof fn lemma_unmatched_leave_record(recs: Seq<EmployeeView>, i: int, e: EmployeeView)
    requires
        0 <= i <= recs.len(),
        e.source == Source::Leave,
        !ids_of(recs, Source::Roster).contains(e.pesel),
    ensures
        common_ids(recs.insert(i, e)) == common_ids(recs),
        common_ids(recs.insert(i, e)).len() == common_ids(recs).len(),
        kept(recs.insert(i, e), common_ids(recs.insert(i, e))) == kept(recs, common_ids(recs)),
{
    let a = recs.subrange(0, i);
    let b = recs.subrange(i, recs.len() as int);
    let ins = recs.insert(i, e);
    assert(ins =~= a + seq![e] + b);
    assert(recs =~= a + b);
    assert forall|src: Source, id: Seq<char>| #[trigger] ids_of(ins, src).contains(id) implies (
    ids_of(recs, src).contains(id) || (src == Source::Leave && id == e.pesel)) by {
        let j = choose|j: int| #![trigger ins[j]] 0 <= j < ins.len() && ins[j].source == src && ins[j].pesel == id;
        if j < i {
            assert(recs[j] == ins[j]);
        } else if j > i {
            assert(recs[j - 1] == ins[j]);
        }
    }
    assert forall|src: Source, id: Seq<char>| #[trigger] ids_of(recs, src).contains(id) implies ids_of(
        ins,
        src,
    ).contains(id) by {
        let j = choose|j: int| #![trigger recs[j]] 0 <= j < recs.len() && recs[j].source == src && recs[j].pesel == id;
        if j < i {
            assert(ins[j] == recs[j]);
        } else {
            assert(ins[j + 1] == recs[j]);
        }
    }
    assert(ids_of(ins, Source::Roster) =~= ids_of(recs, Source::Roster));
    assert(common_ids(ins) =~= common_ids(recs));
    let p = kept_pred(common_ids(recs));
    Seq::filter_distributes_over_add(a + seq![e], b, p);
    Seq::filter_distributes_over_add(a, seq![e], p);
    Seq::filter_distributes_over_add(a, b, p);
    reveal(Seq::filter);
    assert(seq![e].drop_last() =~= Seq::<EmployeeView>::empty());
    assert(!common_ids(recs).contains(e.pesel));
    assert(!p(e));
    assert(seq![e].last() == e);
    assert(Seq::<EmployeeView>::empty().filter(p) =~= Seq::<EmployeeView>::empty());
    assert(seq![e].filter(p) =~= Seq::<EmployeeView>::empty());
    assert(a.filter(p) + Seq::<EmployeeView>::empty() =~= a.filter(p));
}

} // verus!
