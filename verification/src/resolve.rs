//! Resolution of a request path to a root-contained relative path.
//!
//! The raw path must start with `/`.  The remainder is percent-decoded,
//! split on `/`, and normalized: empty and `.` segments vanish, `..`
//! climbs one level and is forbidden once it would climb past the served
//! root.  A successful resolution therefore names a point inside the
//! root's subtree, never outside it.

use vstd::prelude::*;

use crate::codec::{decodable_free, decode_bytes, decode_seq, lemma_round_trip, link_of};
use crate::errors::ServeError;
use crate::seq_views;

verus! {

/// The byte string split on `/`; one split has at least one part, and
/// no part contains a `/`.
pub open spec fn split_slash(s: Seq<u8>) -> Seq<Seq<u8>>
    decreases s.len(),
{
    if s.len() == 0 {
        seq![Seq::<u8>::empty()]
    } else if s[0] == 0x2f {
        seq![Seq::<u8>::empty()] + split_slash(s.skip(1))
    } else {
        let rest = split_slash(s.skip(1));
        seq![seq![s[0]] + rest[0]] + rest.skip(1)
    }
}

proof fn lemma_split_nonempty(s: Seq<u8>)
    ensures
        split_slash(s).len() >= 1,
    decreases s.len(),
{
    if s.len() != 0 {
        lemma_split_nonempty(s.skip(1));
    }
}

proof fn lemma_split_push_slash(s: Seq<u8>)
    ensures
        split_slash(s.push(0x2f)) =~= split_slash(s).push(Seq::<u8>::empty()),
    decreases s.len(),
{
    lemma_split_nonempty(s);
    if s.len() == 0 {
        let t = s.push(0x2f);
        assert(t.len() == 1 && t[0] == 0x2f);
        assert(t.skip(1) =~= Seq::<u8>::empty());
        assert(split_slash(t.skip(1)) =~= seq![Seq::<u8>::empty()]);
        assert(split_slash(t) =~= seq![Seq::<u8>::empty()] + split_slash(t.skip(1)));
        assert(split_slash(s) =~= seq![Seq::<u8>::empty()]);
        assert(split_slash(t) =~= split_slash(s).push(Seq::<u8>::empty()));
    } else {
        let t = s.push(0x2f);
        assert(t[0] == s[0]);
        assert(t.skip(1) =~= s.skip(1).push(0x2f));
        lemma_split_push_slash(s.skip(1));
        lemma_split_nonempty(s.skip(1));
        if s[0] == 0x2f {
            assert(split_slash(t) =~= split_slash(s).push(Seq::<u8>::empty()));
        } else {
            let r = split_slash(s.skip(1));
            let rp = split_slash(s.skip(1).push(0x2f));
            assert(rp =~= r.push(Seq::<u8>::empty()));
            assert(rp[0] == r[0]);
            assert(rp.skip(1) =~= r.skip(1).push(Seq::<u8>::empty()));
            assert(split_slash(t) =~= split_slash(s).push(Seq::<u8>::empty()));
        }
    }
}

proof fn lemma_split_push_byte(s: Seq<u8>, b: u8)
    requires
        b != 0x2f,
    ensures
        split_slash(s.push(b)) =~= split_slash(s).drop_last().push(split_slash(s).last().push(b)),
    decreases s.len(),
{
    lemma_split_nonempty(s);
    if s.len() == 0 {
        let t = s.push(b);
        assert(t.len() == 1 && t[0] == b);
        assert(t.skip(1) =~= Seq::<u8>::empty());
        assert(split_slash(t.skip(1)) =~= seq![Seq::<u8>::empty()]);
        let r0 = split_slash(t.skip(1));
        assert(split_slash(t) =~= seq![seq![b] + r0[0]] + r0.skip(1));
        assert(r0[0] =~= Seq::<u8>::empty());
        assert(seq![b] + r0[0] =~= seq![b]);
        assert(r0.skip(1) =~= Seq::<Seq<u8>>::empty());
        assert(split_slash(t) =~= seq![seq![b]]);
        assert(split_slash(s) =~= seq![Seq::<u8>::empty()]);
        assert(split_slash(s).last().push(b) =~= seq![b]);
        assert(split_slash(t) =~= split_slash(s).drop_last().push(split_slash(s).last().push(b)));
    } else {
        let t = s.push(b);
        assert(t[0] == s[0]);
        assert(t.skip(1) =~= s.skip(1).push(b));
        lemma_split_push_byte(s.skip(1), b);
        lemma_split_nonempty(s.skip(1));
        let r = split_slash(s.skip(1));
        let rp = split_slash(s.skip(1).push(b));
        assert(rp =~= r.drop_last().push(r.last().push(b)));
        if s[0] == 0x2f {
            assert(split_slash(s) =~= seq![Seq::<u8>::empty()] + r);
            assert(split_slash(t) =~= seq![Seq::<u8>::empty()] + rp);
            assert(split_slash(s).last() == r.last());
            assert(split_slash(t) =~= split_slash(s).drop_last().push(
                split_slash(s).last().push(b),
            ));
        } else {
            if r.len() == 1 {
                assert(rp.len() == 1);
                assert(rp[0] == r[0].push(b));
                assert(split_slash(s) =~= seq![seq![s[0]] + r[0]] + r.skip(1));
                assert(split_slash(s).len() == 1);
                assert(split_slash(t) =~= seq![seq![s[0]] + rp[0]] + rp.skip(1));
                assert(seq![s[0]] + r[0].push(b) =~= (seq![s[0]] + r[0]).push(b));
                assert(split_slash(t) =~= split_slash(s).drop_last().push(
                    split_slash(s).last().push(b),
                ));
            } else {
                assert(rp[0] == r[0]);
                assert(split_slash(t) =~= seq![seq![s[0]] + r[0]] + rp.skip(1));
                assert(rp.skip(1) =~= r.skip(1).drop_last().push(r.last().push(b)));
                assert(split_slash(s).last() == r.last());
                assert(split_slash(t) =~= split_slash(s).drop_last().push(
                    split_slash(s).last().push(b),
                ));
            }
        }
    }
}

/// No part of a split contains the separator.
pub proof fn lemma_split_no_slash(s: Seq<u8>)
    ensures
        forall|i: int, j: int|
            0 <= i < split_slash(s).len() && 0 <= j < split_slash(s)[i].len()
                ==> #[trigger] split_slash(s)[i][j] != 0x2f,
    decreases s.len(),
{
    if s.len() != 0 {
        lemma_split_no_slash(s.skip(1));
        lemma_split_nonempty(s.skip(1));
        if s[0] != 0x2f {
            let r = split_slash(s.skip(1));
            assert forall|i: int, j: int|
                0 <= i < split_slash(s).len() && 0 <= j < split_slash(s)[i].len() implies #[trigger] split_slash(
                s,
            )[i][j] != 0x2f by {
                if i == 0 {
                    if j == 0 {
                    } else {
                        assert(split_slash(s)[0][j] == r[0][j - 1]);
                    }
                } else {
                    assert(split_slash(s)[i] == r[i]);
                }
            }
        }
    }
}

/// Split a byte string into its `/`-separated segments.
pub fn split_segments(s: &Vec<u8>) -> (r: Vec<Vec<u8>>)
    ensures
        seq_views(r@) == split_slash(s@),
{
    let mut done: Vec<Vec<u8>> = Vec::new();
    let mut cur: Vec<u8> = Vec::new();
    let mut i: usize = 0;
    proof {
        assert(s@.take(0) =~= Seq::<u8>::empty());
        assert(seq_views(done@).push(cur@) =~= split_slash(s@.take(0)));
    }
    while i < s.len()
        invariant
            i <= s.len(),
            seq_views(done@).push(cur@) == split_slash(s@.take(i as int)),
        decreases s.len() - i,
    {
        let b = s[i];
        proof {
            assert(s@.take(i + 1) =~= s@.take(i as int).push(s@[i as int]));
        }
        if b == 0x2f {
            proof {
                lemma_split_push_slash(s@.take(i as int));
            }
            done.push(cur);
            cur = Vec::new();
            proof {
                assert(seq_views(done@).push(cur@) =~= split_slash(s@.take(i + 1)));
            }
        } else {
            proof {
                lemma_split_push_byte(s@.take(i as int), b);
                assert(split_slash(s@.take(i as int)).drop_last() =~= seq_views(done@));
                assert(split_slash(s@.take(i as int)).last() == cur@);
            }
            cur.push(b);
            proof {
                assert(seq_views(done@).push(cur@) =~= split_slash(s@.take(i + 1)));
            }
        }
        i = i + 1;
    }
    proof {
        assert(s@.take(s@.len() as int) =~= s@);
    }
    done.push(cur);
    proof {
        assert(seq_views(done@) =~= split_slash(s@));
    }
    done
}

/// The one-byte segment `.`: the current directory.
pub open spec fn dot() -> Seq<u8> {
    seq![0x2eu8]
}

/// The two-byte segment `..`: the parent directory.
pub open spec fn dotdot() -> Seq<u8> {
    seq![0x2eu8, 0x2eu8]
}

/// Normalization of a segment list against a stack of kept segments:
/// empty and `.` segments are dropped, `..` pops the stack, anything
/// else is pushed.  `None` means `..` tried to pop an empty stack —
/// a climb out of the served root.
pub open spec fn normalize_onto(acc: Seq<Seq<u8>>, segs: Seq<Seq<u8>>) -> Option<Seq<Seq<u8>>>
    decreases segs.len(),
{
    if segs.len() == 0 {
        Some(acc)
    } else {
        let h = segs[0];
        if h.len() == 0 || h == dot() {
            normalize_onto(acc, segs.skip(1))
        } else if h == dotdot() {
            if acc.len() == 0 {
                None
            } else {
                normalize_onto(acc.drop_last(), segs.skip(1))
            }
        } else {
            normalize_onto(acc.push(h), segs.skip(1))
        }
    }
}

/// The normalized form of a segment list, starting at the root.
pub open spec fn normalized(segs: Seq<Seq<u8>>) -> Option<Seq<Seq<u8>>> {
    normalize_onto(Seq::empty(), segs)
}

/// Normalize the decoded segments of a request path.  Fails with
/// `Forbidden` exactly when a `..` would climb past the served root.
pub fn normalize_segments(segs: Vec<Vec<u8>>) -> (r: Result<Vec<Vec<u8>>, ServeError>)
    ensures
        match r {
            Ok(v) => normalized(seq_views(segs@)) == Some(seq_views(v@)),
            Err(e) => e == ServeError::Forbidden && normalized(seq_views(segs@)) is None,
        },
{
    let mut rest = segs;
    let mut stack: Vec<Vec<u8>> = Vec::new();
    proof {
        assert(seq_views(stack@) =~= Seq::<Seq<u8>>::empty());
    }
    while rest.len() > 0
        invariant
            normalized(seq_views(segs@)) == normalize_onto(seq_views(stack@), seq_views(rest@)),
        decreases rest.len(),
    {
        let ghost old_rest = rest@;
        let h = rest.remove(0);
        proof {
            assert(seq_views(old_rest)[0] == h@);
            assert(seq_views(rest@) =~= seq_views(old_rest).skip(1));
        }
        let is_empty = h.len() == 0;
        let is_dot = h.len() == 1 && h[0] == 0x2e;
        let is_dotdot = h.len() == 2 && h[0] == 0x2e && h[1] == 0x2e;
        if is_empty || is_dot {
            proof {
                if is_dot {
                    assert(h@ =~= dot());
                }
            }
        } else if is_dotdot {
            proof {
                assert(h@ =~= dotdot());
                assert(h@.len() != 0 && h@ != dot());
            }
            if stack.len() == 0 {
                proof {
                    assert(seq_views(stack@).len() == 0);
                }
                return Err(ServeError::Forbidden);
            }
            let ghost old_stack = stack@;
            let _ = stack.pop();
            proof {
                assert(seq_views(stack@) =~= seq_views(old_stack).drop_last());
            }
        } else {
            proof {
                assert(h@.len() != 0 && h@ != dot() && h@ != dotdot());
            }
            let ghost old_stack = stack@;
            stack.push(h);
            proof {
                assert(seq_views(stack@) =~= seq_views(old_stack).push(h@));
            }
        }
    }
    proof {
        assert(seq_views(rest@).len() == 0);
        assert(seq_views(rest@) =~= Seq::<Seq<u8>>::empty());
    }
    Ok(stack)
}

/// Resolve a raw request path: it must begin with `/`; the rest is
/// percent-decoded, split on `/` and normalized.  `Ok` holds the
/// root-relative segments of the target; `MalformedPath` reports a
/// missing leading `/`, `Forbidden` an attempted climb out of the root.
pub fn resolve_request_path(path: &Vec<u8>) -> (r: Result<Vec<Vec<u8>>, ServeError>)
    ensures
        path@.len() == 0 || path@[0] != 0x2f ==> (r matches Err(e) && e
            == ServeError::MalformedPath),
        path@.len() > 0 && path@[0] == 0x2f ==> {
            let segs = split_slash(decode_seq(path@.skip(1)));
            &&& (r matches Ok(v) ==> normalized(segs) == Some(seq_views(v@)))
            &&& (r matches Err(e) ==> e == ServeError::Forbidden && normalized(segs) is None)
        },
{
    if path.len() == 0 || path[0] != 0x2f {
        return Err(ServeError::MalformedPath);
    }
    let mut rel: Vec<u8> = Vec::new();
    let mut i: usize = 1;
    while i < path.len()
        invariant
            1 <= i <= path.len(),
            rel@ == path@.subrange(1, i as int),
        decreases path.len() - i,
    {
        let b = path[i];
        rel.push(b);
        proof {
            assert(rel@ =~= path@.subrange(1, i + 1));
        }
        i = i + 1;
    }
    proof {
        assert(rel@ =~= path@.skip(1));
    }
    let decoded = decode_bytes(&rel);
    let segs = split_segments(&decoded);
    normalize_segments(segs)
}

/// A segment that names a real child: not empty, not `.`, not `..`,
/// and free of the path separator.
pub open spec fn plain_segment(seg: Seq<u8>) -> bool {
    seg.len() > 0 && seg != dot() && seg != dotdot() && forall|j: int|
        0 <= j < seg.len() ==> #[trigger] seg[j] != 0x2f
}

/// A segment list that can only descend from the served root.
pub open spec fn within_root(segs: Seq<Seq<u8>>) -> bool {
    forall|i: int| 0 <= i < segs.len() ==> #[trigger] plain_segment(segs[i])
}

proof fn lemma_normalize_onto_plain(acc: Seq<Seq<u8>>, segs: Seq<Seq<u8>>)
    requires
        within_root(acc),
        forall|i: int, j: int|
            0 <= i < segs.len() && 0 <= j < segs[i].len() ==> #[trigger] segs[i][j] != 0x2f,
        normalize_onto(acc, segs) is Some,
    ensures
        within_root(normalize_onto(acc, segs).unwrap()),
    decreases segs.len(),
{
    if segs.len() == 0 {
    } else {
        let h = segs[0];
        let rest = segs.skip(1);
        assert forall|i: int, j: int|
            0 <= i < rest.len() && 0 <= j < rest[i].len() implies #[trigger] rest[i][j]
            != 0x2f by {
            assert(rest[i] == segs[i + 1]);
        }
        if h.len() == 0 || h == dot() {
            lemma_normalize_onto_plain(acc, rest);
        } else if h == dotdot() {
            assert(acc.len() != 0);
            assert(within_root(acc.drop_last())) by {
                assert forall|i: int|
                    0 <= i < acc.drop_last().len() implies #[trigger] plain_segment(
                    acc.drop_last()[i],
                ) by {
                    assert(acc.drop_last()[i] == acc[i]);
                }
            }
            lemma_normalize_onto_plain(acc.drop_last(), rest);
        } else {
            assert(plain_segment(h)) by {
                assert(forall|j: int| 0 <= j < segs[0].len() ==> #[trigger] segs[0][j] != 0x2f);
            }
            assert(within_root(acc.push(h))) by {
                assert forall|i: int|
                    0 <= i < acc.push(h).len() implies #[trigger] plain_segment(
                    acc.push(h)[i],
                ) by {
                    if i < acc.len() {
                        assert(acc.push(h)[i] == acc[i]);
                    } else {
                        assert(acc.push(h)[i] == h);
                    }
                }
            }
            lemma_normalize_onto_plain(acc.push(h), rest);
        }
    }
}

proof fn lemma_split_of_slash_free(s: Seq<u8>)
    requires
        forall|j: int| 0 <= j < s.len() ==> #[trigger] s[j] != 0x2f,
    ensures
        split_slash(s) =~= seq![s],
    decreases s.len(),
{
    if s.len() == 0 {
        assert(s =~= Seq::<u8>::empty());
        assert(split_slash(s) =~= seq![s]);
    } else {
        let rest = s.skip(1);
        assert forall|j: int| 0 <= j < rest.len() implies #[trigger] rest[j] != 0x2f by {
            assert(rest[j] == s[j + 1]);
        }
        lemma_split_of_slash_free(rest);
        let rest0 = split_slash(rest);
        assert(rest0 == seq![rest]);
        assert(split_slash(s) == seq![seq![s[0]] + rest0[0]] + rest0.skip(1));
        assert(rest0[0] == rest);
        assert(seq![s[0]] + rest =~= s);
        assert(rest0.skip(1) =~= Seq::<Seq<u8>>::empty());
        assert(split_slash(s) =~= seq![s]);
    }
}

/// A listing link made for a plain child name of the root leads back to
/// exactly that child: requesting `/` followed by the link resolves to
/// the one-segment path holding the original name.
pub proof fn lemma_link_navigates_back(name: Seq<u8>)
    requires
        plain_segment(name),
        decodable_free(name),
    ensures
        ({
            let p = seq![0x2fu8] + link_of(Seq::empty(), name);
            &&& p.len() > 0
            &&& p[0] == 0x2f
            &&& normalized(split_slash(decode_seq(p.skip(1)))) == Some(seq![name])
        }),
{
    let link = link_of(Seq::empty(), name);
    let p = seq![0x2fu8] + link;
    assert(Seq::<Seq<u8>>::empty().push(name) =~= seq![name]);
    assert(seq![name].len() == 1 && seq![name][0] == name);
    assert(link == crate::codec::encode_seq(name));
    assert(p.skip(1) =~= link);
    lemma_round_trip(name);
    assert(decode_seq(p.skip(1)) == name);
    lemma_split_of_slash_free(name);
    assert(normalized(seq![name]) == Some(seq![name])) by {
        let one = seq![name];
        assert(one[0] == name);
        assert(name.len() != 0 && name != dot() && name != dotdot());
        assert(one.skip(1) =~= Seq::<Seq<u8>>::empty());
        assert(normalize_onto(Seq::<Seq<u8>>::empty().push(name), one.skip(1)) == Some(
            Seq::<Seq<u8>>::empty().push(name),
        ));
    }
}

/// Containment: whenever a request path resolves, every surviving
/// segment is a plain name — never `..`, never empty, never holding a
/// separator — so the target joined under the served root stays inside
/// the root's subtree.
pub proof fn lemma_resolution_contained(p: Seq<u8>)
    requires
        p.len() > 0,
        p[0] == 0x2f,
        normalized(split_slash(decode_seq(p.skip(1)))) is Some,
    ensures
        within_root(normalized(split_slash(decode_seq(p.skip(1)))).unwrap()),
{
    let segs = split_slash(decode_seq(p.skip(1)));
    lemma_split_no_slash(decode_seq(p.skip(1)));
    lemma_normalize_onto_plain(Seq::empty(), segs);
}

} // verus!
