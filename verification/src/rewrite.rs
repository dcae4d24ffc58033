//! Rewriting one file of the first corpus.
//!
//! Every site of an alias that has documentation becomes a replacement: the
//! documentation, indented for the column of the site, in place of the range
//! of the site. The replacements are applied to a copy of the buffer. The
//! file counts as changed where at least one replacement was made.

use crate::aliases::lemma_place_of;
use crate::replace::{
    apply_replacements, disjoint, in_bounds, is_splice_order, lemma_splice_order_unique,
    reindent, reindented, splice_order, spliced, Edit, Replacement, SpliceError,
};
use crate::resolve::{bodies, body_of, DocTable};
use crate::scan::{all_apart, sites, sites_within, DocLocations, Site};
use crate::source::{apart, ByteRange};
use crate::text::append_range;
use vstd::prelude::*;

verus! {

/// The replacements for the sites of one alias, whose documentation is
/// `doc`: one for each site, in the order of the sites.
pub open spec fn site_edits(doc: Seq<u8>, all: Seq<Site>) -> Seq<Edit> {
    Seq::new(
        all.len(),
        |k: int| Edit { range: all[k].range, text: reindented(doc, all[k].column as nat) },
    )
}

/// The replacements for one alias: those for its sites where it has
/// documentation, none where it has not.
pub open spec fn alias_edits(doc: Seq<u8>, all: Seq<Site>) -> Seq<Edit> {
    if doc.len() > 0 {
        site_edits(doc, all)
    } else {
        Seq::empty()
    }
}

/// The replacements for a file with the aliases `keys` and their sites
/// `all`, alias by alias in the order of the aliases.
pub open spec fn edits_for(
    keys: Seq<Seq<char>>,
    all: Seq<Seq<Site>>,
    doc_keys: Seq<Seq<char>>,
    docs: Seq<Seq<u8>>,
) -> Seq<Edit>
    decreases keys.len(),
{
    if keys.len() == 0 || all.len() != keys.len() {
        Seq::empty()
    } else {
        edits_for(keys.drop_last(), all.drop_last(), doc_keys, docs) + alias_edits(
            body_of(doc_keys, docs, keys.last()),
            all.last(),
        )
    }
}

/// Where no alias of a file has documentation, the file has no replacement.
pub proof fn lemma_unresolved_gives_no_edits(
    keys: Seq<Seq<char>>,
    all: Seq<Seq<Site>>,
    doc_keys: Seq<Seq<char>>,
    docs: Seq<Seq<u8>>,
)
    requires
        forall|i: int|
            0 <= i < keys.len() ==> body_of(doc_keys, docs, #[trigger] keys[i]).len() == 0,
    ensures
        edits_for(keys, all, doc_keys, docs) == Seq::<Edit>::empty(),
    decreases keys.len(),
{
    if keys.len() > 0 && all.len() == keys.len() {
        assert forall|i: int| 0 <= i < keys.drop_last().len() implies body_of(
            doc_keys,
            docs,
            #[trigger] keys.drop_last()[i],
        ).len() == 0 by {
            assert(keys.drop_last()[i] == keys[i]);
        }
        lemma_unresolved_gives_no_edits(keys.drop_last(), all.drop_last(), doc_keys, docs);
        assert(body_of(doc_keys, docs, keys[keys.len() - 1]).len() == 0);
    }
}

/// A buffer without replacements stays as it is.
pub proof fn lemma_no_edits_no_change(buf: Seq<u8>)
    ensures
        spliced(buf, Seq::<Edit>::empty()) == buf,
{
    let none = Seq::<Edit>::empty();
    assert(is_splice_order(none, Seq::<usize>::empty()));
    lemma_splice_order_unique(none, splice_order(none), Seq::<usize>::empty());
    assert(buf.subrange(0, buf.len() as int) == buf);
}

/// A file in which no alias has documentation is rewritten to itself.
pub proof fn lemma_unresolved_is_noop(
    buf: Seq<u8>,
    keys: Seq<Seq<char>>,
    all: Seq<Seq<Site>>,
    doc_keys: Seq<Seq<char>>,
    docs: Seq<Seq<u8>>,
)
    requires
        forall|i: int|
            0 <= i < keys.len() ==> body_of(doc_keys, docs, #[trigger] keys[i]).len() == 0,
    ensures
        spliced(buf, edits_for(keys, all, doc_keys, docs)) == buf,
        edits_for(keys, all, doc_keys, docs).len() == 0,
{
    lemma_unresolved_gives_no_edits(keys, all, doc_keys, docs);
    lemma_no_edits_no_change(buf);
}

/// Every site ends no earlier than it begins.
pub open spec fn sites_well_formed(all: Seq<Seq<Site>>) -> bool {
    forall|i: int, k: int|
        0 <= i < all.len() && 0 <= k < all[i].len() ==> (#[trigger] all[i][k]).range.start
            <= all[i][k].range.end
}

/// Where every site of a file is well formed and lies inside the buffer, so
/// does every replacement of the file.
pub proof fn lemma_edits_in_bounds(
    keys: Seq<Seq<char>>,
    all: Seq<Seq<Site>>,
    doc_keys: Seq<Seq<char>>,
    docs: Seq<Seq<u8>>,
    len: nat,
)
    requires
        sites_within(all, len),
        sites_well_formed(all),
    ensures
        in_bounds(edits_for(keys, all, doc_keys, docs), len),
    decreases keys.len(),
{
    if keys.len() > 0 && all.len() == keys.len() {
        let front_sites = all.drop_last();
        assert(sites_within(front_sites, len)) by {
            assert forall|i: int, k: int|
                0 <= i < front_sites.len() && 0 <= k < front_sites[i].len() implies (
            #[trigger] front_sites[i][k]).range.start <= len && front_sites[i][k].range.end
                <= len by {
                assert(front_sites[i][k] == all[i][k]);
            }
        }
        assert(sites_well_formed(front_sites)) by {
            assert forall|i: int, k: int|
                0 <= i < front_sites.len() && 0 <= k < front_sites[i].len() implies (
            #[trigger] front_sites[i][k]).range.start <= front_sites[i][k].range.end by {
                assert(front_sites[i][k] == all[i][k]);
            }
        }
        lemma_edits_in_bounds(keys.drop_last(), front_sites, doc_keys, docs, len);
        let front = edits_for(keys.drop_last(), front_sites, doc_keys, docs);
        let back = alias_edits(body_of(doc_keys, docs, keys.last()), all.last());
        let edits = edits_for(keys, all, doc_keys, docs);
        assert(edits == front + back);
        assert forall|j: int| 0 <= j < edits.len() implies (#[trigger] edits[j]).range.start
            <= edits[j].range.end <= len by {
            if j >= front.len() {
                let k = j - front.len();
                assert(edits[j] == back[k]);
                assert(back[k].range == all[all.len() - 1][k].range);
            } else {
                assert(edits[j] == front[j]);
            }
        }
    }
}

/// Whether a replacement of this range comes from a site of `all`.
pub open spec fn from_site(all: Seq<Seq<Site>>, range: ByteRange) -> bool {
    exists|i: int, k: int|
        0 <= i < all.len() && 0 <= k < all[i].len() && (#[trigger] all[i][k]).range == range
}

proof fn lemma_edits_come_from_sites(
    keys: Seq<Seq<char>>,
    all: Seq<Seq<Site>>,
    doc_keys: Seq<Seq<char>>,
    docs: Seq<Seq<u8>>,
)
    ensures
        forall|x: int|
            0 <= x < edits_for(keys, all, doc_keys, docs).len() ==> from_site(
                all,
                (#[trigger] edits_for(keys, all, doc_keys, docs)[x]).range,
            ),
    decreases keys.len(),
{
    if keys.len() > 0 && all.len() == keys.len() {
        let front_sites = all.drop_last();
        lemma_edits_come_from_sites(keys.drop_last(), front_sites, doc_keys, docs);
        let front = edits_for(keys.drop_last(), front_sites, doc_keys, docs);
        let back = alias_edits(body_of(doc_keys, docs, keys.last()), all.last());
        let edits = edits_for(keys, all, doc_keys, docs);
        assert(edits == front + back);
        assert forall|x: int| 0 <= x < edits.len() implies from_site(
            all,
            (#[trigger] edits[x]).range,
        ) by {
            if x < front.len() {
                assert(edits[x] == front[x]);
                assert(from_site(front_sites, front[x].range));
                let (i, k) = choose|i: int, k: int|
                    0 <= i < front_sites.len() && 0 <= k < front_sites[i].len() && (
                    #[trigger] front_sites[i][k]).range == front[x].range;
                assert(all[i][k] == front_sites[i][k]);
            } else {
                let k = x - front.len();
                assert(edits[x] == back[k]);
                assert(all[all.len() - 1][k].range == back[k].range);
            }
        }
    }
}

/// Where every two sites of a file are apart, so are every two of its
/// replacements.
pub proof fn lemma_edits_apart(
    keys: Seq<Seq<char>>,
    all: Seq<Seq<Site>>,
    doc_keys: Seq<Seq<char>>,
    docs: Seq<Seq<u8>>,
)
    requires
        all_apart(all),
    ensures
        disjoint(edits_for(keys, all, doc_keys, docs)),
    decreases keys.len(),
{
    if keys.len() > 0 && all.len() == keys.len() {
        let last = all.len() - 1;
        let front_sites = all.drop_last();
        assert(all_apart(front_sites)) by {
            assert forall|i: int, k: int, j: int, m: int|
                0 <= i < front_sites.len() && 0 <= k < front_sites[i].len() && 0 <= j
                    < front_sites.len() && 0 <= m < front_sites[j].len() && (i != j || k
                    != m) implies apart(
                (#[trigger] front_sites[i][k]).range,
                (#[trigger] front_sites[j][m]).range,
            ) by {
                assert(front_sites[i][k] == all[i][k]);
                assert(front_sites[j][m] == all[j][m]);
            }
        }
        lemma_edits_apart(keys.drop_last(), front_sites, doc_keys, docs);
        lemma_edits_come_from_sites(keys.drop_last(), front_sites, doc_keys, docs);
        let front = edits_for(keys.drop_last(), front_sites, doc_keys, docs);
        let back = alias_edits(body_of(doc_keys, docs, keys.last()), all.last());
        let edits = edits_for(keys, all, doc_keys, docs);
        assert(edits == front + back);
        assert forall|x: int, y: int|
            0 <= x < edits.len() && 0 <= y < edits.len() && x != y implies apart(
            (#[trigger] edits[x]).range,
            (#[trigger] edits[y]).range,
        ) by {
            if x < front.len() && y < front.len() {
                assert(edits[x] == front[x] && edits[y] == front[y]);
            } else if x >= front.len() && y >= front.len() {
                let k = x - front.len();
                let m = y - front.len();
                assert(edits[x] == back[k] && edits[y] == back[m]);
                assert(apart(all[last][k].range, all[last][m].range));
            } else {
                let inner = if x < front.len() { x } else { y };
                let outer = if x < front.len() { y } else { x };
                let m = outer - front.len();
                assert(edits[inner] == front[inner] && edits[outer] == back[m]);
                assert(from_site(front_sites, front[inner].range));
                let (i, k) = choose|i: int, k: int|
                    0 <= i < front_sites.len() && 0 <= k < front_sites[i].len() && (
                    #[trigger] front_sites[i][k]).range == front[inner].range;
                assert(all[i][k] == front_sites[i][k]);
                assert(apart(all[i][k].range, all[last][m].range));
            }
        }
    }
}

/// A file whose sites are well formed, lie inside its buffer and are apart
/// from each other has replacements that the buffer takes.
pub proof fn lemma_safe_sites_are_taken(
    keys: Seq<Seq<char>>,
    all: Seq<Seq<Site>>,
    doc_keys: Seq<Seq<char>>,
    docs: Seq<Seq<u8>>,
    len: nat,
)
    requires
        sites_within(all, len),
        sites_well_formed(all),
        all_apart(all),
    ensures
        in_bounds(edits_for(keys, all, doc_keys, docs), len),
        disjoint(edits_for(keys, all, doc_keys, docs)),
{
    lemma_edits_in_bounds(keys, all, doc_keys, docs, len);
    lemma_edits_apart(keys, all, doc_keys, docs);
}

/// The number of replacements that the aliases before place `i` give.
pub open spec fn edits_before(
    keys: Seq<Seq<char>>,
    all: Seq<Seq<Site>>,
    doc_keys: Seq<Seq<char>>,
    docs: Seq<Seq<u8>>,
    i: int,
) -> int {
    edits_for(keys.take(i), all.take(i), doc_keys, docs).len() as int
}

/// The replacements of a file hold those of each alias that has
/// documentation, side by side and in the order of its sites: every site of
/// the alias gets the same documentation, indented for its own column.
pub proof fn lemma_sites_share_documentation(
    keys: Seq<Seq<char>>,
    all: Seq<Seq<Site>>,
    doc_keys: Seq<Seq<char>>,
    docs: Seq<Seq<u8>>,
    i: int,
    k: int,
)
    requires
        keys.len() == all.len(),
        0 <= i < keys.len(),
        0 <= k < all[i].len(),
        body_of(doc_keys, docs, keys[i]).len() > 0,
    ensures
        ({
            let edits = edits_for(keys, all, doc_keys, docs);
            let at = edits_before(keys, all, doc_keys, docs, i) + k;
            &&& 0 <= at < edits.len()
            &&& edits[at].range == all[i][k].range
            &&& edits[at].text == reindented(
                body_of(doc_keys, docs, keys[i]),
                all[i][k].column as nat,
            )
        }),
    decreases keys.len(),
{
    let last = keys.len() - 1;
    let front = edits_for(keys.drop_last(), all.drop_last(), doc_keys, docs);
    if i == last {
        assert(keys.take(i) == keys.drop_last());
        assert(all.take(i) == all.drop_last());
    } else {
        assert(keys.drop_last().take(i) == keys.take(i));
        assert(all.drop_last().take(i) == all.take(i));
        assert(keys.drop_last()[i] == keys[i]);
        assert(all.drop_last()[i] == all[i]);
        lemma_sites_share_documentation(keys.drop_last(), all.drop_last(), doc_keys, docs, i, k);
    }
}

/// The replacements for a file, from the sites of its aliases and the
/// documentation of each alias.
pub fn collect_replacements(locations: &DocLocations, table: &DocTable) -> (reps: Vec<Replacement>)
    ensures
        reps.deep_view() == edits_for(
            locations.keys(),
            sites(locations),
            table.keys(),
            bodies(table),
        ),
{
    proof {
        use_type_invariant(locations);
        use_type_invariant(table);
    }
    let ghost keys = locations.keys();
    let ghost all = sites(locations);
    let ghost doc_keys = table.keys();
    let ghost docs = bodies(table);
    let mut reps: Vec<Replacement> = Vec::new();
    let mut i: usize = 0;
    assert(reps.deep_view() == Seq::<Edit>::empty());
    while i < locations.len()
        invariant
            i <= keys.len(),
            locations.wf(),
            table.wf(),
            keys == locations.keys(),
            all == sites(locations),
            doc_keys == table.keys(),
            docs == bodies(table),
            reps.deep_view() == edits_for(keys.take(i as int), all.take(i as int), doc_keys, docs),
        decreases keys.len() - i,
    {
        let key = locations.key(i);
        let found = locations.value(i);
        let ghost before = reps.deep_view();
        proof {
            assert(keys.take(i + 1).drop_last() == keys.take(i as int));
            assert(all.take(i + 1).drop_last() == all.take(i as int));
            assert(keys.take(i + 1).last() == key@);
            assert(all.take(i + 1).last() == found@);
        }
        match table.find(key.as_str()) {
            Some(j) => {
                proof {
                    lemma_place_of(doc_keys, j as int);
                    assert(docs[j as int] == table.values()[j as int]@);
                }
                let doc = table.value(j);
                if doc.len() > 0 {
                    let mut k: usize = 0;
                    while k < found.len()
                        invariant
                            k <= found.len(),
                            reps.deep_view() == before + site_edits(doc@, found@.take(k as int)),
                        decreases found.len() - k,
                    {
                        let site = found[k];
                        let ghost so_far = reps.deep_view();
                        let text = reindent(doc.as_slice(), site.column);
                        reps.push(Replacement { range: site.range, text });
                        proof {
                            let edit = Edit {
                                range: site.range,
                                text: reindented(doc@, site.column as nat),
                            };
                            assert(reps.deep_view() == so_far.push(edit));
                            assert(site_edits(doc@, found@.take(k + 1)) == site_edits(
                                doc@,
                                found@.take(k as int),
                            ).push(edit));
                        }
                        k = k + 1;
                    }
                    assert(found@.take(found.len() as int) == found@);
                } else {
                    assert(reps.deep_view() == before + Seq::<Edit>::empty());
                }
            },
            None => {
                assert(reps.deep_view() == before + Seq::<Edit>::empty());
            },
        }
        i = i + 1;
    }
    assert(keys.take(keys.len() as int) == keys);
    assert(all.take(keys.len() as int) == all);
    reps
}

/// A file as it was rewritten.
#[derive(Debug)]
pub struct Rewritten {
    /// The buffer with every replacement in place.
    pub content: Vec<u8>,
    /// Whether a replacement was made.
    pub changed: bool,
}

/// Rewrites the buffer of a file: every site of an alias that has
/// documentation takes that documentation. Sites out of bounds or in
/// conflict are an error.
pub fn rewrite(source: &[u8], locations: &DocLocations, table: &DocTable) -> (done: Result<
    Rewritten,
    SpliceError,
>)
    ensures
        ({
            let edits = edits_for(locations.keys(), sites(locations), table.keys(), bodies(table));
            match done {
                Ok(file) => in_bounds(edits, source@.len()) && disjoint(edits) && file.content@
                    == spliced(source@, edits) && file.changed == (edits.len() > 0),
                Err(SpliceError::OutOfBounds) => !in_bounds(edits, source@.len()),
                Err(SpliceError::Overlap) => in_bounds(edits, source@.len()) && !disjoint(edits),
            }
        }),
{
    let reps = collect_replacements(locations, table);
    let mut content: Vec<u8> = Vec::new();
    append_range(&mut content, source, 0, source.len());
    assert(content@ == source@) by {
        assert(source@.subrange(0, source@.len() as int) == source@);
    }
    match apply_replacements(&mut content, &reps) {
        Ok(()) => Ok(Rewritten { content, changed: reps.len() > 0 }),
        Err(e) => Err(e),
    }
}

/// What is done with a file once it is rewritten.
#[derive(Clone, Copy, Debug, PartialEq, Eq, Structural)]
pub enum Output {
    /// The path and the content are printed.
    Print,
    /// The content is written over the file; before that, where `backup`
    /// is set, the content that was there is written beside it.
    Write { backup: bool },
    /// The file is left alone.
    Keep,
}

/// What is done with a rewritten file. Unless files are rewritten in place,
/// every file is printed, changed or not. In place, a file is written only
/// where it changed, and backed up only where backups were asked for.
pub open spec fn planned(in_place: bool, backup: bool, changed: bool) -> Output {
    if !in_place {
        Output::Print
    } else if changed {
        Output::Write { backup }
    } else {
        Output::Keep
    }
}

/// Decides what is done with a rewritten file.
pub fn plan_output(in_place: bool, backup: bool, changed: bool) -> (output: Output)
    ensures
        output == planned(in_place, backup, changed),
{
    if !in_place {
        Output::Print
    } else if changed {
        Output::Write { backup }
    } else {
        Output::Keep
    }
}

} // verus!
