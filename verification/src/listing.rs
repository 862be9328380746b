//! Building the view model of a directory listing.
//!
//! Each readable child becomes one entry: a root-relative,
//! percent-encoded link and the raw display name.  A child that could
//! not be examined is skipped and costs nothing else.  The entries come
//! out sorted by (link, name), so the listing is the same whatever
//! order the directory was walked in.

use vstd::prelude::*;

use vstd::relations::sorted_by;
use vstd::seq_lib::group_to_multiset_ensures;
use vstd::seq_lib::lemma_multiset_commutative;
use vstd::seq_lib::lemma_sorted_unique;

use crate::codec::{encode_link, link_of};
use crate::order::{bytes_eq_exec, bytes_le_exec, entry_le, entry_leq, lemma_bytes_le_antisym,
    lemma_bytes_le_total, lemma_entry_le_total_ordering, lemma_entry_le_trans};
use crate::{child_views, seq_views};

verus! {

/// One child of a listed directory: the percent-encoded, root-relative
/// link, and the raw name shown to the reader.
pub struct DirectoryEntry {
    pub link: Vec<u8>,
    pub name: Vec<u8>,
}

/// The view model of one rendered listing page: the request path as it
/// arrived, for display, and the sorted entries.
pub struct ListingView {
    pub label: Vec<u8>,
    pub entries: Vec<DirectoryEntry>,
}

/// The mathematical view of a list of entries: (link, name) pairs.
pub open spec fn entry_views(es: Seq<DirectoryEntry>) -> Seq<(Seq<u8>, Seq<u8>)> {
    Seq::new(es.len(), |i: int| (es[i].link@, es[i].name@))
}

/// The entries of a listing before sorting: one (link, name) pair per
/// readable child, in the order the children arrived, faulted children
/// skipped.
pub open spec fn raw_entries(rel: Seq<Seq<u8>>, ch: Seq<Option<Seq<u8>>>) -> Seq<
    (Seq<u8>, Seq<u8>),
>
    decreases ch.len(),
{
    if ch.len() == 0 {
        Seq::empty()
    } else {
        let rest = raw_entries(rel, ch.drop_last());
        match ch.last() {
            Some(n) => rest.push((link_of(rel, n), n)),
            None => rest,
        }
    }
}

/// The finished listing: the raw entries sorted by (link, name).
pub open spec fn sorted_entries(es: Seq<(Seq<u8>, Seq<u8>)>) -> Seq<(Seq<u8>, Seq<u8>)> {
    es.sort_by(entry_leq())
}

/// Copy a byte string.
pub fn copy_bytes(v: &Vec<u8>) -> (r: Vec<u8>)
    ensures
        r@ == v@,
{
    let mut r: Vec<u8> = Vec::new();
    let mut i: usize = 0;
    while i < v.len()
        invariant
            i <= v.len(),
            r@ == v@.take(i as int),
        decreases v.len() - i,
    {
        r.push(v[i]);
        proof {
            assert(r@ =~= v@.take(i + 1));
        }
        i = i + 1;
    }
    proof {
        assert(v@.take(v@.len() as int) =~= v@);
    }
    r
}

fn entry_le_exec(a: &DirectoryEntry, b: &DirectoryEntry) -> (r: bool)
    ensures
        r == entry_le((a.link@, a.name@), (b.link@, b.name@)),
{
    if !bytes_eq_exec(&a.link, &b.link) {
        bytes_le_exec(&a.link, &b.link)
    } else {
        bytes_le_exec(&a.name, &b.name)
    }
}

fn find_pos(out: &Vec<DirectoryEntry>, e: &DirectoryEntry) -> (pos: usize)
    ensures
        pos <= out@.len(),
        forall|k: int| 0 <= k < pos ==> entry_le(#[trigger] entry_views(out@)[k], (e.link@, e.name@)),
        pos < out@.len() ==> !entry_le(entry_views(out@)[pos as int], (e.link@, e.name@)),
{
    let mut pos: usize = 0;
    while pos < out.len()
        invariant
            pos <= out@.len(),
            forall|k: int|
                0 <= k < pos ==> entry_le(#[trigger] entry_views(out@)[k], (e.link@, e.name@)),
        decreases out.len() - pos,
    {
        if !entry_le_exec(&out[pos], e) {
            proof {
                assert(entry_views(out@)[pos as int] == (out@[pos as int].link@,
                    out@[pos as int].name@));
            }
            return pos;
        }
        proof {
            assert(entry_views(out@)[pos as int] == (out@[pos as int].link@,
                out@[pos as int].name@));
        }
        pos = pos + 1;
    }
    pos
}

proof fn lemma_entry_le_trans4(a: (Seq<u8>, Seq<u8>), b: (Seq<u8>, Seq<u8>), c: (Seq<u8>, Seq<u8>), d: (
    Seq<u8>,
    Seq<u8>,
))
    requires
        entry_le(a, b),
        entry_le(b, c),
        c == d || entry_le(c, d),
    ensures
        entry_le(a, d),
{
    lemma_entry_le_trans(a, b, c);
    if c != d {
        lemma_entry_le_trans(a, c, d);
    }
}

proof fn lemma_to_multiset_insert(s: Seq<(Seq<u8>, Seq<u8>)>, i: int, v: (Seq<u8>, Seq<u8>))
    requires
        0 <= i <= s.len(),
    ensures
        s.insert(i, v).to_multiset() == s.to_multiset().insert(v),
{
    broadcast use group_to_multiset_ensures;
    broadcast use vstd::multiset::group_multiset_axioms;

    let pre = s.subrange(0, i);
    let post = s.subrange(i, s.len() as int);
    assert(s.insert(i, v) == pre.push(v) + post);
    assert(s =~= pre + post);
    lemma_multiset_commutative(pre.push(v), post);
    lemma_multiset_commutative(pre, post);
    assert(pre.push(v).to_multiset() =~= pre.to_multiset().insert(v));
    assert(s.insert(i, v).to_multiset() =~= s.to_multiset().insert(v));
}

fn insert_entry_sorted(out: &mut Vec<DirectoryEntry>, e: DirectoryEntry)
    requires
        sorted_by(entry_views(old(out)@), entry_leq()),
    ensures
        sorted_by(entry_views(final(out)@), entry_leq()),
        entry_views(final(out)@).to_multiset() == entry_views(old(out)@).to_multiset().insert(
            (e.link@, e.name@),
        ),
{
    let ghost ovs = entry_views(old(out)@);
    let ghost ev = (e.link@, e.name@);
    let pos = find_pos(out, &e);
    out.insert(pos, e);
    proof {
        let nvs = entry_views(out@);
        ovs.insert_ensures(pos as int, ev);
        assert(nvs =~= ovs.insert(pos as int, ev)) by {
            assert forall|k: int| 0 <= k < nvs.len() implies nvs[k] == ovs.insert(pos as int, ev)[k]
                by {
                if k < pos {
                    assert(out@[k] == old(out)@[k]);
                } else if k == pos {
                    assert(out@[k] == e);
                } else {
                    assert(out@[k] == old(out)@[k - 1]);
                    assert(ovs.insert(pos as int, ev)[(k - 1) + 1] == ovs[k - 1]);
                }
            }
        }
        let leq = entry_leq();
        assert(forall|a: (Seq<u8>, Seq<u8>), b: (Seq<u8>, Seq<u8>)|
            #[trigger] leq(a, b) == entry_le(a, b));
        if pos < ovs.len() {
            lemma_bytes_le_total(ovs[pos as int].0, ev.0);
            lemma_bytes_le_total(ovs[pos as int].1, ev.1);
            assert(entry_le(ev, ovs[pos as int]));
        }
        assert(sorted_by(nvs, leq)) by {
            assert forall|k: int, l: int| 0 <= k < l < nvs.len() implies #[trigger] leq(
                nvs[k],
                nvs[l],
            ) by {
                lemma_entry_le_total_ordering();
                if l < pos {
                    assert(leq(ovs[k], ovs[l]));
                    assert(nvs[k] == ovs[k] && nvs[l] == ovs[l]);
                } else if k < pos && l == pos {
                    assert(nvs[k] == ovs[k] && nvs[l] == ev);
                    assert(entry_le(ovs[k], ev));
                } else if k < pos && l > pos {
                    assert(nvs[k] == ovs[k] && nvs[l] == ovs[l - 1]);
                    assert(entry_le(ovs[k], ev));
                    assert(entry_le(ev, ovs[pos as int]));
                    if pos < l - 1 {
                        assert(leq(ovs[pos as int], ovs[l - 1]));
                    }
                    lemma_entry_le_trans4(ovs[k], ev, ovs[pos as int], ovs[l - 1]);
                } else if k == pos {
                    assert(nvs[k] == ev);
                    assert(nvs[l] == ovs[l - 1]);
                    assert(entry_le(ev, ovs[pos as int]));
                    if pos < l - 1 {
                        assert(leq(ovs[pos as int], ovs[l - 1]));
                        lemma_entry_le_trans(ev, ovs[pos as int], ovs[l - 1]);
                    }
                } else {
                    assert(nvs[k] == ovs[k - 1]);
                    assert(nvs[l] == ovs[l - 1]);
                    assert(leq(ovs[k - 1], ovs[l - 1]));
                }
            }
        }
        lemma_to_multiset_insert(ovs, pos as int, ev);
    }
}

/// Turn a directory's children into sorted listing entries.  `rel` is
/// the listed directory's root-relative path; each child is either its
/// name or `None` for one that could not be examined.  The result is
/// exactly the readable children, one entry each, sorted by
/// (link, name).
pub fn build_entries(rel: &Vec<Vec<u8>>, children: &Vec<Option<Vec<u8>>>) -> (r: Vec<
    DirectoryEntry,
>)
    ensures
        entry_views(r@) == sorted_entries(raw_entries(seq_views(rel@), child_views(children@))),
        sorted_by(entry_views(r@), entry_leq()),
{
    broadcast use group_to_multiset_ensures;

    let ghost rv = seq_views(rel@);
    let ghost cv = child_views(children@);
    let mut out: Vec<DirectoryEntry> = Vec::new();
    let mut i: usize = 0;
    proof {
        assert(cv.take(0) =~= Seq::<Option<Seq<u8>>>::empty());
        assert(entry_views(out@) =~= raw_entries(rv, cv.take(0)));
    }
    while i < children.len()
        invariant
            i <= children.len(),
            rv == seq_views(rel@),
            cv == child_views(children@),
            sorted_by(entry_views(out@), entry_leq()),
            entry_views(out@).to_multiset() == raw_entries(rv, cv.take(i as int)).to_multiset(),
        decreases children.len() - i,
    {
        broadcast use group_to_multiset_ensures;

        proof {
            assert(cv.take(i + 1).drop_last() =~= cv.take(i as int));
            assert(cv.take(i + 1).last() == cv[i as int]);
        }
        match &children[i] {
            None => {
                proof {
                    assert(cv[i as int] is None);
                    assert(raw_entries(rv, cv.take(i + 1)) == raw_entries(rv, cv.take(i as int)));
                }
            },
            Some(name) => {
                proof {
                    assert(cv[i as int] == Some(name@));
                    assert(raw_entries(rv, cv.take(i + 1)) == raw_entries(
                        rv,
                        cv.take(i as int),
                    ).push((link_of(rv, name@), name@)));
                }
                let link = encode_link(rel, name);
                let e = DirectoryEntry { link, name: copy_bytes(name) };
                proof {
                    assert((e.link@, e.name@) == (link_of(rv, name@), name@));
                }
                insert_entry_sorted(&mut out, e);
            },
        }
        i = i + 1;
    }
    proof {
        assert(cv.take(children@.len() as int) =~= cv);
        let raw = raw_entries(rv, cv);
        lemma_entry_le_total_ordering();
        raw.lemma_sort_by_ensures(entry_leq());
        lemma_sorted_unique(entry_views(out@), raw.sort_by(entry_leq()), entry_leq());
        assert(entry_views(out@) =~= sorted_entries(raw));
    }
    out
}

/// The listing order, read back from positions: among distinct entries
/// of a sorted listing, one precedes the other exactly when its
/// (link, name) pair is the smaller.
pub proof fn lemma_listing_order(es: Seq<(Seq<u8>, Seq<u8>)>, i: int, j: int)
    requires
        sorted_by(es, entry_leq()),
        0 <= i < es.len(),
        0 <= j < es.len(),
        es[i] != es[j],
    ensures
        i < j <==> entry_le(es[i], es[j]),
{
    let leq = entry_leq();
    assert(forall|a: (Seq<u8>, Seq<u8>), b: (Seq<u8>, Seq<u8>)|
        #[trigger] leq(a, b) == entry_le(a, b));
    if i < j {
        assert(leq(es[i], es[j]));
    } else {
        assert(j < i);
        assert(leq(es[j], es[i]));
        if entry_le(es[i], es[j]) {
            if es[i].0 != es[j].0 {
                lemma_bytes_le_antisym(es[i].0, es[j].0);
            } else {
                lemma_bytes_le_antisym(es[i].1, es[j].1);
            }
            assert(false);
        }
    }
}

/// The set of display names appearing in a sequence of entries.
pub open spec fn entry_names(es: Seq<(Seq<u8>, Seq<u8>)>) -> Set<Seq<u8>> {
    Set::new(|n: Seq<u8>| exists|i: int| 0 <= i < es.len() && (#[trigger] es[i]).1 == n)
}

proof fn lemma_raw_names(rel: Seq<Seq<u8>>, ch: Seq<Option<Seq<u8>>>)
    ensures
        entry_names(raw_entries(rel, ch)) =~= Set::new(
            |n: Seq<u8>| ch.contains(Some(n)),
        ),
    decreases ch.len(),
{
    let raw = raw_entries(rel, ch);
    if ch.len() == 0 {
        assert forall|n: Seq<u8>| !ch.contains(Some(n)) by {}
    } else {
        let pre = ch.drop_last();
        lemma_raw_names(rel, pre);
        let rawp = raw_entries(rel, pre);
        assert forall|x: Option<Seq<u8>>| #[trigger] ch.contains(x) implies pre.contains(x)
            || ch.last() == x by {
            let i = choose|i: int| 0 <= i < ch.len() && ch[i] == x;
            if i < ch.len() - 1 {
                assert(pre[i] == x);
            }
        }
        assert forall|x: Option<Seq<u8>>| #[trigger] pre.contains(x) implies ch.contains(x) by {
            let i = choose|i: int| 0 <= i < pre.len() && pre[i] == x;
            assert(ch[i] == x);
        }
        assert(ch.contains(ch.last())) by {
            assert(ch[ch.len() - 1] == ch.last());
        }
        match ch.last() {
            None => {
                assert(raw == rawp);
                assert forall|n: Seq<u8>|
                    ch.contains(Some(n)) <==> pre.contains(Some(n)) by {}
            },
            Some(m) => {
                assert(raw == rawp.push((link_of(rel, m), m)));
                assert forall|n: Seq<u8>|
                    entry_names(raw).contains(n) implies entry_names(rawp).contains(n) || n
                    == m by {
                    let i = choose|i: int| 0 <= i < raw.len() && (#[trigger] raw[i]).1 == n;
                    if i < rawp.len() {
                        assert(rawp[i].1 == n);
                    } else {
                        assert(raw[i] == (link_of(rel, m), m));
                    }
                }
                assert forall|n: Seq<u8>|
                    entry_names(rawp).contains(n) || n == m implies entry_names(raw).contains(
                    n,
                ) by {
                    if entry_names(rawp).contains(n) {
                        let i = choose|i: int| 0 <= i < rawp.len() && (#[trigger] rawp[i]).1 == n;
                        assert(raw[i].1 == n);
                    } else {
                        assert(raw[raw.len() - 1].1 == m);
                    }
                }
            },
        }
    }
}

/// Completeness of a listing: the display names in the finished,
/// sorted listing are exactly the names of the children that could be
/// examined — every readable child appears, and nothing else does.
pub proof fn lemma_listing_names(rel: Seq<Seq<u8>>, ch: Seq<Option<Seq<u8>>>)
    ensures
        entry_names(sorted_entries(raw_entries(rel, ch))) == Set::new(
            |n: Seq<u8>| ch.contains(Some(n)),
        ),
{
    broadcast use group_to_multiset_ensures;

    let raw = raw_entries(rel, ch);
    let sorted = sorted_entries(raw);
    lemma_entry_le_total_ordering();
    raw.lemma_sort_by_ensures(entry_leq());
    assert forall|p: (Seq<u8>, Seq<u8>)| #[trigger] sorted.contains(p) implies raw.contains(
        p,
    ) by {
        assert(sorted.to_multiset().count(p) > 0);
        assert(raw.to_multiset().count(p) > 0);
    }
    assert forall|p: (Seq<u8>, Seq<u8>)| #[trigger] raw.contains(p) implies sorted.contains(
        p,
    ) by {
        assert(raw.to_multiset().count(p) > 0);
        assert(sorted.to_multiset().count(p) > 0);
    }
    assert(entry_names(sorted) =~= entry_names(raw)) by {
        assert forall|n: Seq<u8>|
            entry_names(sorted).contains(n) implies entry_names(raw).contains(n) by {
            let i = choose|i: int| 0 <= i < sorted.len() && (#[trigger] sorted[i]).1 == n;
            assert(sorted.contains(sorted[i]));
            assert(raw.contains(sorted[i]));
            let j = choose|j: int| 0 <= j < raw.len() && raw[j] == sorted[i];
            assert((#[trigger] raw[j]).1 == n);
        }
        assert forall|n: Seq<u8>|
            entry_names(raw).contains(n) implies entry_names(sorted).contains(n) by {
            let i = choose|i: int| 0 <= i < raw.len() && (#[trigger] raw[i]).1 == n;
            assert(raw.contains(raw[i]));
            assert(sorted.contains(raw[i]));
            let j = choose|j: int| 0 <= j < sorted.len() && sorted[j] == raw[i];
            assert((#[trigger] sorted[j]).1 == n);
        }
    }
    lemma_raw_names(rel, ch);
}

/// Assemble the page's view model: the undecoded request path as the
/// label, and the sorted entries of the resolved directory.
pub fn build_listing(request_path: &Vec<u8>, rel: &Vec<Vec<u8>>, children: &Vec<
    Option<Vec<u8>>,
>) -> (v: ListingView)
    ensures
        v.label@ == request_path@,
        entry_views(v.entries@) == sorted_entries(
            raw_entries(seq_views(rel@), child_views(children@)),
        ),
        sorted_by(entry_views(v.entries@), entry_leq()),
{
    ListingView { label: copy_bytes(request_path), entries: build_entries(rel, children) }
}

} // verus!
