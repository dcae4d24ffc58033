//! Finding where documentation goes.
//!
//! A declaration that carries an alias gets one site. Where it has
//! documentation comments already, the site is the range of the whole block
//! of them, and the new text replaces it. Where it has none, the site is the
//! empty range at which the declaration begins, and the new text is inserted.
//! A site whose position does not resolve is left out; the alias is noted all
//! the same.

use crate::aliases::{distinct, lemma_place_of, AliasMap};
use crate::attr::{comment_block, find_alias, Attribute, DocAlias, DocComment};
use crate::source::{
    apart, lemma_position_in_bounds, lemma_position_monotonic, not_after, position_of, range_of,
    ByteRange, LineColumn, Source, Span,
};
use vstd::prelude::*;

verus! {

/// A place in the buffer that takes documentation, and the column at which
/// it stands.
#[derive(Clone, Copy, Debug, PartialEq, Eq, Structural)]
pub struct Site {
    pub column: usize,
    pub range: ByteRange,
}

/// The sites of each alias, in the order in which they were found.
pub type DocLocations = AliasMap<Vec<Site>>;

/// The sites of each alias of `map`, by the place of the alias.
pub open spec fn sites(map: &DocLocations) -> Seq<Seq<Site>> {
    Seq::new(map.values().len(), |i: int| map.values()[i]@)
}

/// The stretch of source that the site of a declaration is read from: its
/// block of documentation comments where it has one, else the point at which
/// it begins.
pub open spec fn site_span(span: Span, attrs: Seq<Attribute>) -> Span {
    match comment_block(attrs) {
        Some(block) => block,
        None => Span { start: span.start, end: span.start },
    }
}

/// The site of a declaration that spans `span` and has the annotations
/// `attrs`. Where it has documentation comments, the site is the range of
/// their block, at the column at which the block begins. Where it has none,
/// the site is the point at which it begins. Either way there is no site
/// where the position does not resolve.
pub open spec fn site_of(text: Seq<u8>, span: Span, attrs: Seq<Attribute>) -> Option<Site> {
    let from = site_span(span, attrs);
    match range_of(text, from) {
        Some(range) => Some(
            Site {
                column: from.start.column,
                range: ByteRange { start: range.0 as usize, end: range.1 as usize },
            },
        ),
        None => None,
    }
}

/// The range of a site lies inside the buffer, and it ends no earlier than
/// it begins where the stretch of source that it is read from does. A site
/// of a declaration without documentation comments is empty.
pub proof fn lemma_site_in_bounds(text: Seq<u8>, span: Span, attrs: Seq<Attribute>)
    requires
        text.len() <= usize::MAX,
    ensures
        site_of(text, span, attrs) matches Some(site) ==> {
            &&& site.range.start <= text.len()
            &&& site.range.end <= text.len()
            &&& not_after(site_span(span, attrs).start, site_span(span, attrs).end)
                ==> site.range.start <= site.range.end
            &&& comment_block(attrs) is None ==> site.range.start == site.range.end
                && site.column == span.start.column && position_of(text, span.start) == Some(
                site.range.start as int,
            )
        },
{
    let from = site_span(span, attrs);
    lemma_position_in_bounds(text, from.start);
    lemma_position_in_bounds(text, from.end);
    if not_after(from.start, from.end) {
        lemma_position_monotonic(text, from.start, from.end);
    }
}

/// A site begins at its column: the column of the site, taken on the line
/// on which the stretch of source begins that the site is read from,
/// resolves to where the site begins.
pub proof fn lemma_site_begins_at_its_column(text: Seq<u8>, span: Span, attrs: Seq<Attribute>)
    requires
        text.len() <= usize::MAX,
    ensures
        site_of(text, span, attrs) matches Some(site) ==> position_of(
            text,
            LineColumn { line: site_span(span, attrs).start.line, column: site.column },
        ) == Some(site.range.start as int),
{
    lemma_position_in_bounds(text, site_span(span, attrs).start);
}

/// The ranges of two sites do not overlap where the stretches of source that
/// they are read from do not: if the one ends before the other begins, or
/// where it begins, so do the ranges.
pub proof fn lemma_sites_apart(
    text: Seq<u8>,
    first: Span,
    first_attrs: Seq<Attribute>,
    second: Span,
    second_attrs: Seq<Attribute>,
)
    requires
        text.len() <= usize::MAX,
        not_after(site_span(first, first_attrs).end, site_span(second, second_attrs).start),
    ensures
        (site_of(text, first, first_attrs) is Some && site_of(text, second, second_attrs) is Some)
            ==> apart(
            site_of(text, first, first_attrs)->0.range,
            site_of(text, second, second_attrs)->0.range,
        ) && site_of(text, first, first_attrs)->0.range.end <= site_of(
            text,
            second,
            second_attrs,
        )->0.range.start,
{
    let a = site_span(first, first_attrs);
    let b = site_span(second, second_attrs);
    lemma_position_in_bounds(text, a.start);
    lemma_position_in_bounds(text, a.end);
    lemma_position_in_bounds(text, b.start);
    lemma_position_in_bounds(text, b.end);
    lemma_position_monotonic(text, a.end, b.start);
}

/// Every two sites are apart.
pub open spec fn all_apart(all: Seq<Seq<Site>>) -> bool {
    forall|i: int, k: int, j: int, m: int|
        0 <= i < all.len() && 0 <= k < all[i].len() && 0 <= j < all.len() && 0 <= m < all[j].len()
            && (i != j || k != m) ==> apart(
            (#[trigger] all[i][k]).range,
            (#[trigger] all[j][m]).range,
        )
}

/// `site` is apart from every site of `all`.
pub open spec fn apart_from_all(all: Seq<Seq<Site>>, site: Site) -> bool {
    forall|i: int, k: int|
        0 <= i < all.len() && 0 <= k < all[i].len() ==> apart(
            (#[trigger] all[i][k]).range,
            site.range,
        )
}

/// Every site lies inside a buffer of `len` bytes.
pub open spec fn sites_within(all: Seq<Seq<Site>>, len: nat) -> bool {
    forall|i: int, k: int|
        0 <= i < all.len() && 0 <= k < all[i].len() ==> (#[trigger] all[i][k]).range.start <= len
            && all[i][k].range.end <= len
}

/// The aliases and their sites once `alias` is noted with `site`: a new
/// alias goes to the end, and a site goes to the end of the sites of its
/// alias.
pub open spec fn noted(
    keys: Seq<Seq<char>>,
    all: Seq<Seq<Site>>,
    alias: Seq<char>,
    site: Option<Site>,
) -> (Seq<Seq<char>>, Seq<Seq<Site>>) {
    let added = match site {
        Some(s) => seq![s],
        None => Seq::empty(),
    };
    if keys.contains(alias) {
        let i = keys.index_of(alias);
        (keys, all.update(i, all[i] + added))
    } else {
        (keys.push(alias), all.push(added))
    }
}

/// The aliases and their sites once a declaration is scanned. One without
/// an alias changes nothing.
pub open spec fn scanned(
    keys: Seq<Seq<char>>,
    all: Seq<Seq<Site>>,
    text: Seq<u8>,
    span: Span,
    attrs: Seq<Attribute>,
) -> (Seq<Seq<char>>, Seq<Seq<Site>>) {
    match find_alias(attrs) {
        Some(alias) => noted(keys, all, alias, site_of(text, span, attrs)),
        None => (keys, all),
    }
}

/// The sites that `alias` has among `keys` and `all`: none where it is not
/// among them.
pub open spec fn sites_of(keys: Seq<Seq<char>>, all: Seq<Seq<Site>>, alias: Seq<char>) -> Seq<
    Site,
> {
    if keys.contains(alias) {
        all[keys.index_of(alias)]
    } else {
        Seq::empty()
    }
}

/// Noting a site adds it at the end of the sites of its alias and nothing
/// else: the sites that the alias had stay, in their order, and every other
/// alias keeps its sites. No alias is noted twice.
pub proof fn lemma_noted_appends(
    keys: Seq<Seq<char>>,
    all: Seq<Seq<Site>>,
    alias: Seq<char>,
    site: Option<Site>,
)
    requires
        keys.len() == all.len(),
        distinct(keys),
    ensures
        ({
            let (now_keys, now) = noted(keys, all, alias, site);
            let added = match site {
                Some(s) => seq![s],
                None => Seq::empty(),
            };
            &&& now_keys.len() == now.len()
            &&& distinct(now_keys)
            &&& now_keys.contains(alias)
            &&& sites_of(now_keys, now, alias) == sites_of(keys, all, alias) + added
            &&& forall|other: Seq<char>|
                other != alias ==> #[trigger] sites_of(now_keys, now, other) == sites_of(
                    keys,
                    all,
                    other,
                )
            &&& forall|i: int| 0 <= i < keys.len() ==> #[trigger] now_keys[i] == keys[i]
        }),
{
    let (now_keys, now) = noted(keys, all, alias, site);
    let added = match site {
        Some(s) => seq![s],
        None => Seq::empty(),
    };
    if keys.contains(alias) {
        let i = keys.index_of(alias);
        assert(0 <= i < keys.len() && keys[i] == alias);
        assert forall|other: Seq<char>| other != alias implies #[trigger] sites_of(
            now_keys,
            now,
            other,
        ) == sites_of(keys, all, other) by {
            if keys.contains(other) {
                let j = keys.index_of(other);
                assert(keys[j] == other);
            }
        }
    } else {
        assert(now_keys.last() == alias);
        assert forall|i: int, j: int| 0 <= i < j < now_keys.len() implies now_keys[i]
            != now_keys[j] by {
            if j == keys.len() {
                assert(keys.contains(keys[i]));
            } else {
                assert(keys[i] != keys[j]);
            }
        }
        lemma_place_of(now_keys, keys.len() as int);
        assert(sites_of(keys, all, alias) + added == added);
        assert forall|other: Seq<char>| other != alias implies #[trigger] sites_of(
            now_keys,
            now,
            other,
        ) == sites_of(keys, all, other) by {
            if keys.contains(other) {
                let j = keys.index_of(other);
                assert(keys[j] == other);
                assert(now_keys[j] == other);
                lemma_place_of(now_keys, j);
            } else if now_keys.contains(other) {
                let j = now_keys.index_of(other);
                assert(now_keys[j] == other);
                if j < keys.len() {
                    assert(keys[j] == other);
                }
            }
        }
    }
}

/// Noting a site keeps all sites apart, where they were apart and the new
/// site is apart from each of them.
pub proof fn lemma_noted_keeps_apart(
    keys: Seq<Seq<char>>,
    all: Seq<Seq<Site>>,
    alias: Seq<char>,
    site: Option<Site>,
)
    requires
        keys.len() == all.len(),
        all_apart(all),
        site matches Some(s) ==> apart_from_all(all, s),
    ensures
        all_apart(noted(keys, all, alias, site).1),
{
    let now = noted(keys, all, alias, site).1;
    let at = if keys.contains(alias) {
        keys.index_of(alias)
    } else {
        keys.len() as int
    };
    assert forall|i: int, k: int, j: int, m: int|
        0 <= i < now.len() && 0 <= k < now[i].len() && 0 <= j < now.len() && 0 <= m < now[j].len()
            && (i != j || k != m) implies apart(
        (#[trigger] now[i][k]).range,
        (#[trigger] now[j][m]).range,
    ) by {
        let old_i = i < all.len() && k < all[i].len();
        let old_j = j < all.len() && m < all[j].len();
        if old_i {
            assert(now[i][k] == all[i][k]);
        } else {
            assert(i == at && site is Some && now[i][k] == site->0);
        }
        if old_j {
            assert(now[j][m] == all[j][m]);
        } else {
            assert(j == at && site is Some && now[j][m] == site->0);
        }
        if old_i && old_j {
            assert(apart(all[i][k].range, all[j][m].range));
        } else if old_i {
            assert(apart(all[i][k].range, site->0.range));
        } else if old_j {
            assert(apart(all[j][m].range, site->0.range));
        } else {
            assert(i == j);
            let base = if at < all.len() { all[at].len() as int } else { 0 };
            assert(k == base && m == base);
        }
    }
}

/// Scanning a declaration keeps all sites apart, where they were apart and
/// the site of the declaration is apart from each of them.
pub proof fn lemma_scan_keeps_sites_apart(
    keys: Seq<Seq<char>>,
    all: Seq<Seq<Site>>,
    text: Seq<u8>,
    span: Span,
    attrs: Seq<Attribute>,
)
    requires
        keys.len() == all.len(),
        all_apart(all),
        site_of(text, span, attrs) matches Some(s) ==> apart_from_all(all, s),
    ensures
        all_apart(scanned(keys, all, text, span, attrs).1),
{
    if find_alias(attrs) is Some {
        lemma_noted_keeps_apart(keys, all, find_alias(attrs)->0, site_of(text, span, attrs));
    }
}

/// Walks the declarations of one file and collects their sites.
pub struct DocVisitor<'s> {
    source: Source<'s>,
    doc_locations: DocLocations,
}

impl<'s> DocVisitor<'s> {
    /// The text of the file.
    pub closed spec fn text(&self) -> Seq<u8> {
        self.source.text()
    }

    /// The aliases found so far.
    pub closed spec fn keys(&self) -> Seq<Seq<char>> {
        self.doc_locations.keys()
    }

    /// The sites found so far, by the place of their alias.
    pub closed spec fn sites(&self) -> Seq<Seq<Site>> {
        sites(&self.doc_locations)
    }

    /// Each alias has its sites, no alias stands twice, and the text is one
    /// that fits in memory. This holds of every visitor.
    pub open spec fn wf(&self) -> bool {
        &&& self.keys().len() == self.sites().len()
        &&& distinct(self.keys())
        &&& self.text().len() <= usize::MAX
    }

    pub fn new(source: Source<'s>) -> (visitor: Self)
        ensures
            visitor.wf(),
            visitor.text() == source.text(),
            visitor.keys() == Seq::<Seq<char>>::empty(),
            visitor.sites() == Seq::<Seq<Site>>::empty(),
    {
        let _ = source.full().len();
        let visitor = DocVisitor { source, doc_locations: AliasMap::new() };
        assert(visitor.sites() == Seq::<Seq<Site>>::empty());
        visitor
    }

    /// What was found.
    pub fn into_locations(self) -> (found: DocLocations)
        ensures
            self.wf(),
            found.wf(),
            found.keys() == self.keys(),
            sites(&found) == self.sites(),
    {
        proof {
            use_type_invariant(&self.doc_locations);
        }
        let _ = self.source.full().len();
        self.doc_locations
    }

    /// The site of a declaration that spans `span` and has the annotations
    /// `attrs`.
    pub fn site_for(&self, span: Span, attrs: &Vec<Attribute>) -> (site: Option<Site>)
        ensures
            site == site_of(self.text(), span, attrs@),
            site matches Some(s) ==> s.range.start <= self.text().len() && s.range.end
                <= self.text().len(),
    {
        let from = match DocComment::block(attrs) {
            Some(block) => block,
            None => Span { start: span.start, end: span.start },
        };
        match self.source.range_for(from) {
            Some(range) => Some(Site { column: from.start.column, range }),
            None => None,
        }
    }

    /// Scans one declaration: where it carries an alias, the alias is noted,
    /// with the site of the declaration where it has one.
    pub fn try_replace_docs(&mut self, span: Span, attrs: &Vec<Attribute>)
        ensures
            old(self).wf(),
            final(self).wf(),
            final(self).text() == old(self).text(),
            (final(self).keys(), final(self).sites()) == scanned(
                old(self).keys(),
                old(self).sites(),
                old(self).text(),
                span,
                attrs@,
            ),
            sites_within(old(self).sites(), old(self).text().len()) ==> sites_within(
                final(self).sites(),
                final(self).text().len(),
            ),
            all_apart(old(self).sites()) && (site_of(old(self).text(), span, attrs@) matches Some(
                s,
            ) ==> apart_from_all(old(self).sites(), s)) ==> all_apart(final(self).sites()),
    {
        proof {
            use_type_invariant(&self.doc_locations);
        }
        let _ = self.source.full().len();
        let ghost len = self.text().len();
        let ghost old_keys = self.keys();
        let ghost was = self.sites();
        proof {
            let site = site_of(self.text(), span, attrs@);
            if all_apart(was) && (site matches Some(s) ==> apart_from_all(was, s)) {
                lemma_scan_keeps_sites_apart(old_keys, was, self.text(), span, attrs@);
            }
        }
        match DocAlias::find(attrs) {
            Some(alias) => {
                let site = self.site_for(span, attrs);
                let place = match self.doc_locations.find(alias.as_str()) {
                    Some(i) => {
                        proof {
                            lemma_place_of(old_keys, i as int);
                        }
                        i
                    },
                    None => {
                        let i = self.doc_locations.len();
                        self.doc_locations.push(alias, Vec::new());
                        assert(sites(&self.doc_locations) == was.push(Seq::<Site>::empty()));
                        i
                    },
                };
                let ghost middle = sites(&self.doc_locations);
                match site {
                    Some(s) => {
                        let mut list = self.doc_locations.swap_value(place, Vec::new());
                        list.push(s);
                        let _ = self.doc_locations.swap_value(place, list);
                        proof {
                            let now = sites(&self.doc_locations);
                            let grown = middle[place as int] + seq![s];
                            assert(middle[place as int].push(s) == grown);
                            assert forall|i: int| 0 <= i < now.len() implies now[i]
                                == middle.update(place as int, grown)[i] by {}
                            assert(now == middle.update(place as int, grown));
                        }
                    },
                    None => {
                        assert(middle == middle.update(
                            place as int,
                            middle[place as int] + Seq::<Site>::empty(),
                        ));
                    },
                }
                proof {
                    let now = sites(&self.doc_locations);
                    if sites_within(was, len) {
                        assert forall|i: int, k: int|
                            0 <= i < now.len() && 0 <= k < now[i].len() implies (
                        #[trigger] now[i][k]).range.start <= len && now[i][k].range.end
                            <= len by {
                            if i < was.len() && k < was[i].len() {
                                assert(now[i][k] == was[i][k]);
                            }
                        }
                    }
                }
            },
            None => {},
        }
    }
}

} // verus!
